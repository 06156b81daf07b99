//! Compositing node descriptions that carry no GPU state: the canvas root,
//! the transition kinds with their shader mode numbers, and the pass plan
//! by which an effect node runs its chain.

use vstd::prelude::*;

verus! {

/// The transparent canvas root every compositing fold starts from.
#[derive(Debug)]
pub struct CanvasNode;

impl CanvasNode {
    /// Creates the canvas node.
    pub fn new() -> (n: CanvasNode)
        ensures
            n == CanvasNode,
    {
        CanvasNode
    }
}

impl Default for CanvasNode {
    fn default() -> (n: Self)
        ensures
            n == CanvasNode,
    {
        CanvasNode::new()
    }
}

/// Transition kinds.
#[derive(Clone, Copy, PartialEq, Eq, Structural, Debug)]
pub enum TransitionKind {
    /// Linear blend from A to B.
    Crossfade,
    /// Left-to-right wipe with a soft edge.
    Wipe,
    /// Per-pixel noise dissolve.
    Dissolve,
}

impl Default for TransitionKind {
    fn default() -> (k: Self)
        ensures
            k == TransitionKind::Crossfade,
    {
        TransitionKind::Crossfade
    }
}

/// The transition shader's `mode` value for each kind.
pub open spec fn transition_mode(k: TransitionKind) -> u32 {
    match k {
        TransitionKind::Crossfade => 0,
        TransitionKind::Wipe => 1,
        TransitionKind::Dissolve => 2,
    }
}

impl TransitionKind {
    /// The transition shader's `mode` value: crossfade 0, wipe 1,
    /// dissolve 2.
    pub fn shader_mode(&self) -> (m: u32)
        ensures
            m == transition_mode(*self),
    {
        match self {
            TransitionKind::Crossfade => 0,
            TransitionKind::Wipe => 1,
            TransitionKind::Dissolve => 2,
        }
    }
}

/// Where an effect pass reads from.
#[derive(Clone, Copy, PartialEq, Eq, Structural, Debug)]
pub enum PassInput {
    /// The effect node's input.
    NodeInput,
    /// The scratch texture written by an earlier pass.
    Scratch(usize),
}

/// Where an effect pass writes to.
#[derive(Clone, Copy, PartialEq, Eq, Structural, Debug)]
pub enum PassOutput {
    /// The effect node's output target.
    NodeOutput,
    /// A scratch texture taken from the pool.
    Scratch(usize),
}

/// One render pass of an effect chain: pass `pass` of effect `effect`.
#[derive(Clone, Copy, PartialEq, Eq, Structural, Debug)]
pub struct PassStep {
    pub effect: usize,
    pub pass: usize,
    pub input: PassInput,
    pub output: PassOutput,
}

/// The `(effect, pass)` pairs of a chain whose effects have `counts`
/// passes, in execution order.
pub open spec fn pass_pairs(counts: Seq<usize>) -> Seq<(usize, usize)>
    decreases counts.len(),
{
    if counts.len() == 0 {
        Seq::empty()
    } else {
        pass_pairs(counts.drop_last()) + Seq::new(
            counts.last() as nat,
            |p: int| ((counts.len() - 1) as usize, p as usize),
        )
    }
}

/// The ping-pong plan of an effect chain: pass `j` reads the node input
/// (first pass) or the scratch texture of pass `j - 1`, and writes the
/// node output (last pass) or scratch texture `j`.
pub open spec fn effect_pass_plan_spec(counts: Seq<usize>) -> Seq<PassStep> {
    let pairs = pass_pairs(counts);
    Seq::new(
        pairs.len(),
        |j: int|
            PassStep {
                effect: pairs[j].0,
                pass: pairs[j].1,
                input: if j == 0 { PassInput::NodeInput } else { PassInput::Scratch((j - 1) as usize) },
                output: if j == pairs.len() - 1 { PassOutput::NodeOutput } else { PassOutput::Scratch(j as usize) },
            },
    )
}

proof fn lemma_pass_pairs_len(counts: Seq<usize>)
    ensures
        pass_pairs(counts).len() == sum_counts(counts),
    decreases counts.len(),
{
    if counts.len() > 0 {
        lemma_pass_pairs_len(counts.drop_last());
    }
}

/// Total passes of a chain.
pub open spec fn sum_counts(counts: Seq<usize>) -> nat
    decreases counts.len(),
{
    if counts.len() == 0 { 0 } else { sum_counts(counts.drop_last()) + counts.last() as nat }
}

proof fn lemma_sum_counts_prefix(counts: Seq<usize>, e: int)
    requires
        0 <= e <= counts.len(),
    ensures
        sum_counts(counts.take(e)) <= sum_counts(counts),
    decreases counts.len() - e,
{
    if e < counts.len() {
        lemma_sum_counts_prefix(counts, e + 1);
        assert(counts.take(e + 1).drop_last() =~= counts.take(e));
    } else {
        assert(counts.take(e) =~= counts);
    }
}

/// The passes an effect node records for a chain whose effects have
/// `counts` passes each (see [`effect_pass_plan_spec`]).
pub fn effect_pass_plan(counts: &Vec<usize>) -> (plan: Vec<PassStep>)
    requires
        sum_counts(counts@) <= usize::MAX,
    ensures
        plan@ == effect_pass_plan_spec(counts@),
{
    let ghost pairs = pass_pairs(counts@);
    proof {
        lemma_pass_pairs_len(counts@);
    }
    let mut total: usize = 0;
    let mut e: usize = 0;
    while e < counts.len()
        invariant
            e <= counts@.len(),
            total == sum_counts(counts@.take(e as int)),
            sum_counts(counts@) <= usize::MAX,
        decreases counts@.len() - e,
    {
        proof {
            lemma_sum_counts_prefix(counts@, e + 1);
            assert(counts@.take(e + 1).drop_last() =~= counts@.take(e as int));
        }
        total = total + counts[e];
        e += 1;
    }
    assert(counts@.take(counts@.len() as int) =~= counts@);
    let ghost spec_plan = effect_pass_plan_spec(counts@);
    let mut plan: Vec<PassStep> = Vec::new();
    let mut j: usize = 0;
    let mut e: usize = 0;
    while e < counts.len()
        invariant
            e <= counts@.len(),
            total == pairs.len(),
            pairs == pass_pairs(counts@),
            spec_plan == effect_pass_plan_spec(counts@),
            j == pass_pairs(counts@.take(e as int)).len(),
            pass_pairs(counts@.take(e as int)).is_prefix_of(pairs),
            plan@ == spec_plan.take(j as int),
        decreases counts@.len() - e,
    {
        let ghost done = pass_pairs(counts@.take(e as int));
        let ghost with_e = pass_pairs(counts@.take(e + 1));
        proof {
            assert(counts@.take(e + 1).drop_last() =~= counts@.take(e as int));
            lemma_pass_pairs_prefix(counts@, e + 1);
        }
        let mut p: usize = 0;
        while p < counts[e]
            invariant
                e < counts@.len(),
                p <= counts@[e as int],
                total == pairs.len(),
                pairs == pass_pairs(counts@),
                spec_plan == effect_pass_plan_spec(counts@),
                with_e == done + Seq::new(counts@[e as int] as nat, |q: int| (e, q as usize)),
                with_e.is_prefix_of(pairs),
                j == done.len() + p,
                plan@ == spec_plan.take(j as int),
            decreases counts@[e as int] - p,
        {
            assert(with_e.len() == done.len() + counts@[e as int]);
            assert(with_e[j as int] == (e, p));
            assert(pairs[j as int] == with_e[j as int]);
            let input = if j == 0 { PassInput::NodeInput } else { PassInput::Scratch(j - 1) };
            let output = if j + 1 == total { PassOutput::NodeOutput } else { PassOutput::Scratch(j) };
            let step = PassStep { effect: e, pass: p, input, output };
            assert(j < pairs.len());
            assert(spec_plan.len() == pairs.len());
            assert(spec_plan[j as int] == step);
            plan.push(step);
            assert(plan@ =~= spec_plan.take(j + 1));
            j += 1;
            p += 1;
        }
        e += 1;
    }
    assert(counts@.take(counts@.len() as int) =~= counts@);
    assert(plan@ =~= spec_plan);
    plan
}

proof fn lemma_pass_pairs_prefix(counts: Seq<usize>, e: int)
    requires
        0 <= e <= counts.len(),
    ensures
        pass_pairs(counts.take(e)).is_prefix_of(pass_pairs(counts)),
    decreases counts.len() - e,
{
    if e < counts.len() {
        lemma_pass_pairs_prefix(counts, e + 1);
        assert(counts.take(e + 1).drop_last() =~= counts.take(e));
    } else {
        assert(counts.take(e) =~= counts);
    }
}

/// Law: an effect chain runs as a pipeline: every pass but the last writes
/// a fresh scratch texture that the next pass reads, the first pass reads
/// the node input, and the last pass writes the node output.
pub proof fn lemma_effect_passes_chain(counts: Seq<usize>, j: int)
    requires
        0 <= j < effect_pass_plan_spec(counts).len(),
    ensures
        j == 0 ==> effect_pass_plan_spec(counts)[j].input == PassInput::NodeInput,
        j + 1 < effect_pass_plan_spec(counts).len() ==> {
            &&& effect_pass_plan_spec(counts)[j].output == PassOutput::Scratch(j as usize)
            &&& effect_pass_plan_spec(counts)[j + 1].input == PassInput::Scratch(j as usize)
        },
        j + 1 == effect_pass_plan_spec(counts).len() ==> effect_pass_plan_spec(counts)[j].output == PassOutput::NodeOutput,
{
}

/// Law: the plan runs every pass of every effect exactly once, effect by
/// effect and pass by pass.
pub proof fn lemma_effect_passes_cover_chain(counts: Seq<usize>)
    requires
        counts.len() <= usize::MAX,
    ensures
        effect_pass_plan_spec(counts).len() == sum_counts(counts),
        forall|j: int| 0 <= j < effect_pass_plan_spec(counts).len() ==> {
            let step = #[trigger] effect_pass_plan_spec(counts)[j];
            step.effect < counts.len() && step.pass < counts[step.effect as int]
        },
    decreases counts.len(),
{
    lemma_pass_pairs_len(counts);
    lemma_pairs_in_range(counts);
}

proof fn lemma_pairs_in_range(counts: Seq<usize>)
    requires
        counts.len() <= usize::MAX,
    ensures
        forall|j: int| 0 <= j < pass_pairs(counts).len() ==> {
            let pr = #[trigger] pass_pairs(counts)[j];
            pr.0 < counts.len() && pr.1 < counts[pr.0 as int]
        },
    decreases counts.len(),
{
    if counts.len() > 0 {
        let init = counts.drop_last();
        lemma_pairs_in_range(init);
        let prev = pass_pairs(init);
        assert forall|j: int| 0 <= j < pass_pairs(counts).len() implies {
            let pr = #[trigger] pass_pairs(counts)[j];
            pr.0 < counts.len() && pr.1 < counts[pr.0 as int]
        } by {
            if j < prev.len() {
                assert(pass_pairs(counts)[j] == prev[j]);
                assert(counts[prev[j].0 as int] == init[prev[j].0 as int]);
            } else {
                assert(pass_pairs(counts)[j] == ((counts.len() - 1) as usize, (j - prev.len()) as usize));
            }
        }
    }
}

} // verus!
