use vstd::prelude::*;

verus! {

/// What testing the current ray against the scene gave.
#[derive(Clone, Copy, Debug, PartialEq, Eq, Structural)]
pub enum Bounce {
    /// The ray hit nothing.
    Missed,
    /// The ray hit a surface whose material absorbed it.
    Absorbed,
    /// The ray hit a surface and its material sent out a new ray.
    Scattered,
}

/// What the radiance estimator does next.
#[derive(Clone, Copy, Debug, PartialEq, Eq, Structural)]
pub enum PathStep {
    /// Test the current ray against the scene, with `remaining` bounces left.
    Trace { remaining: u32 },
    /// The ray escaped: the path's light is its attenuation times the sky.
    Sky,
    /// The path carries no light: it was absorbed or ran out of depth.
    Black,
}

/// The step a path starts with.
pub open spec fn first_step(max_depth: nat) -> PathStep {
    if max_depth == 0 {
        PathStep::Black
    } else {
        PathStep::Trace { remaining: max_depth as u32 }
    }
}

/// The step after a scene test made with `remaining` bounces left.
pub open spec fn step_after(remaining: nat, bounce: Bounce) -> PathStep {
    match bounce {
        Bounce::Missed => PathStep::Sky,
        Bounce::Absorbed => PathStep::Black,
        Bounce::Scattered => if remaining <= 1 {
            PathStep::Black
        } else {
            PathStep::Trace { remaining: (remaining - 1) as u32 }
        },
    }
}

/// Where a path stands after the scene tests gave `bounces`, one after the
/// other, for as long as it was still being traced.
pub open spec fn walk(step: PathStep, bounces: Seq<Bounce>) -> PathStep
    decreases bounces.len(),
{
    if bounces.len() == 0 {
        step
    } else {
        match step {
            PathStep::Trace { remaining } => walk(
                step_after(remaining as nat, bounces[0]),
                bounces.drop_first(),
            ),
            _ => step,
        }
    }
}

/// How a path of at most `max_depth` bounces begins: with no depth at all it
/// carries no light, else its first ray is traced.
pub fn start_path(max_depth: u32) -> (step: PathStep)
    ensures
        step == first_step(max_depth as nat),
{
    if max_depth == 0 {
        PathStep::Black
    } else {
        PathStep::Trace { remaining: max_depth }
    }
}

/// The step after a scene test made with `remaining` bounces left: a miss
/// shows the sky, an absorption ends in black, and a scattered ray is traced
/// on with one bounce fewer, or ends in black when none is left.
pub fn next_step(remaining: u32, bounce: Bounce) -> (step: PathStep)
    requires
        remaining > 0,
    ensures
        step == step_after(remaining as nat, bounce),
{
    match bounce {
        Bounce::Missed => PathStep::Sky,
        Bounce::Absorbed => PathStep::Black,
        Bounce::Scattered => if remaining == 1 {
            PathStep::Black
        } else {
            PathStep::Trace { remaining: remaining - 1 }
        },
    }
}

/// A path that starts with `max_depth` bounces has ended, in the sky or in
/// black, after at most `max_depth` scene tests, whatever they gave.
pub proof fn lemma_path_ends_within_depth(max_depth: u32, bounces: Seq<Bounce>)
    requires
        bounces.len() >= max_depth,
    ensures
        !(walk(first_step(max_depth as nat), bounces) is Trace),
{
    lemma_trace_ends(first_step(max_depth as nat), bounces);
}

proof fn lemma_trace_ends(step: PathStep, bounces: Seq<Bounce>)
    requires
        step is Trace ==> 0 < step->remaining <= bounces.len(),
    ensures
        !(walk(step, bounces) is Trace),
    decreases bounces.len(),
{
    if bounces.len() > 0 {
        if let PathStep::Trace { remaining } = step {
            lemma_trace_ends(step_after(remaining as nat, bounces[0]), bounces.drop_first());
        }
    }
}

} // verus!
