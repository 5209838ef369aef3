use vstd::prelude::*;
use dynasmrt::components::LabelRegistry;
use dynasmrt::DynamicLabel;
use crate::jit::plan::Program;

verus! {

/// The label registry of an assembler of `dynasmrt`. Nothing is known of
/// its inside but what the names below say.
#[verifier::external_type_specification]
#[verifier::external_body]
pub struct ExLabelRegistry(LabelRegistry);

/// A dynamic label of `dynasmrt`: an identifier that an assembler binds to
/// a place in its code.
#[verifier::external_type_specification]
#[verifier::external_body]
pub struct ExDynamicLabel(DynamicLabel);

/// The dynamic labels of a registry, by identifier: for each the offset it
/// is bound to, or `None` while it is not bound.
pub uninterp spec fn dynamic_labels(registry: LabelRegistry) -> Seq<Option<nat>>;

/// The identifier of a dynamic label: the number that its `get_id` returns.
pub uninterp spec fn label_id(label: DynamicLabel) -> nat;

/// `LabelRegistry::new_dynamic_label` makes a label whose identifier is the
/// number of dynamic labels made before, and records it as not bound.
#[verifier::external_body]
fn new_dynamic_label(registry: &mut LabelRegistry) -> (label: DynamicLabel)
    ensures
        label_id(label) == dynamic_labels(*old(registry)).len(),
        dynamic_labels(*final(registry)) == dynamic_labels(*old(registry)).push(None),
{
    registry.new_dynamic_label()
}

/// The dynamic labels after `n` more, none of them bound, were made.
pub open spec fn with_fresh(before: Seq<Option<nat>>, n: nat) -> Seq<Option<nat>> {
    before + Seq::new(n, |i: int| None::<nat>)
}

/// Allocates the labels of a plan in a registry: for each loop, in the
/// order of the loop numbers, first its entry label and then its exit
/// label. All of them are fresh, and none is bound yet.
pub fn allocate_labels(registry: &mut LabelRegistry, program: &Program) -> (pairs: Vec<
    (DynamicLabel, DynamicLabel),
>)
    ensures
        pairs.len() == program.loops(),
        dynamic_labels(*final(registry)) == with_fresh(
            dynamic_labels(*old(registry)),
            2 * program.loops(),
        ),
        forall|id: int|
            0 <= id < pairs.len() ==> label_id(#[trigger] pairs[id].0) == dynamic_labels(
                *old(registry),
            ).len() + 2 * id && label_id(pairs[id].1) == dynamic_labels(*old(registry)).len() + 2
                * id + 1,
{
    let loops = program.loop_count();
    let ghost before = dynamic_labels(*registry);
    let mut pairs: Vec<(DynamicLabel, DynamicLabel)> = Vec::new();
    let mut id: usize = 0;
    assert(with_fresh(before, 0) =~= before);
    while id < loops
        invariant
            id <= loops,
            loops == program.loops(),
            pairs.len() == id,
            dynamic_labels(*registry) == with_fresh(before, (2 * id) as nat),
            forall|k: int|
                0 <= k < pairs.len() ==> label_id(#[trigger] pairs[k].0) == before.len() + 2 * k
                    && label_id(pairs[k].1) == before.len() + 2 * k + 1,
        decreases loops - id,
    {
        let entry = new_dynamic_label(registry);
        let exit = new_dynamic_label(registry);
        pairs.push((entry, exit));
        assert(with_fresh(before, (2 * id) as nat).push(None).push(None) =~= with_fresh(
            before,
            (2 * (id + 1)) as nat,
        ));
        id = id + 1;
    }
    pairs
}

} // verus!
