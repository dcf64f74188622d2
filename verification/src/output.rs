//! What scripts hand over through the build function.

use vstd::prelude::*;
use vstd::string::*;

verus! {

/// What one call of `__gha_build` hands over.
#[derive(Debug)]
pub struct BuildOutput {
    /// The name of what was built.
    pub id: String,
    /// What was built, as JSON.
    pub json: String,
    /// `workflow` or `action`.
    pub output_type: String,
}

/// What one call of the build function hands over, as the contracts see it.
pub struct OutputView {
    /// The name of what was built.
    pub id: Seq<char>,
    /// What was built, as JSON.
    pub json: Seq<char>,
    /// `workflow` or `action`.
    pub output_type: Seq<char>,
}

impl View for BuildOutput {
    type V = OutputView;

    open spec fn view(&self) -> OutputView {
        OutputView { id: self.id@, json: self.json@, output_type: self.output_type@ }
    }
}

impl Clone for BuildOutput {
    fn clone(&self) -> (r: Self)
        ensures
            r == *self,
    {
        BuildOutput {
            id: self.id.clone(),
            json: self.json.clone(),
            output_type: self.output_type.clone(),
        }
    }
}

/// The arguments of one call of the build function.
pub struct CallView {
    /// The name of what was built.
    pub id: Seq<char>,
    /// What was built, as JSON.
    pub json: Seq<char>,
    /// The type of the output, which a script can leave out.
    pub output_type: Option<Seq<char>>,
}

/// What a call hands over. An output is a workflow unless the script says otherwise.
pub open spec fn output_of(call: CallView) -> OutputView {
    OutputView {
        id: call.id,
        json: call.json,
        output_type: match call.output_type {
            Some(output_type) => output_type,
            None => "workflow"@,
        },
    }
}

/// What calls hand over, in their order.
pub open spec fn outputs_of(calls: Seq<CallView>) -> Seq<OutputView> {
    calls.map_values(|call: CallView| output_of(call))
}

/// The views of a list of outputs.
pub open spec fn output_views(outputs: Seq<BuildOutput>) -> Seq<OutputView> {
    outputs.map_values(|output: BuildOutput| output@)
}

/// Keeps what one call of the build function hands over.
pub fn record_build(
    outputs: &mut Vec<BuildOutput>,
    id: String,
    json: String,
    output_type: Option<String>,
)
    ensures
        output_views(final(outputs)@) == output_views(old(outputs)@).push(
            output_of(
                (CallView {
                    id: id@,
                    json: json@,
                    output_type: crate::error::optional_text(output_type),
                }),
            ),
        ),
        final(outputs)@.len() == old(outputs)@.len() + 1,
        final(outputs)@.drop_last() == old(outputs)@,
        final(outputs)@.last().id@ == id@,
        final(outputs)@.last().json@ == json@,
        final(outputs)@.last().output_type@ == (match output_type {
            Some(given) => given@,
            None => "workflow"@,
        }),
{
    let ghost call = CallView {
        id: id@,
        json: json@,
        output_type: crate::error::optional_text(output_type),
    };
    let output_type = match output_type {
        Some(output_type) => output_type,
        None => "workflow".to_owned(),
    };
    outputs.push(BuildOutput { id, json, output_type });
    assert(output_views(outputs@) == output_views(old(outputs)@).push(output_of(call)));
    assert(outputs@.drop_last() == old(outputs)@);
}

/// Outputs are as many as the calls that hand them over, and each keeps the arguments of its call
/// as they are; an output whose type is left out is a workflow.
pub proof fn law_outputs_keep_arguments(outputs: Seq<BuildOutput>, calls: Seq<CallView>)
    requires
        output_views(outputs) == outputs_of(calls),
    ensures
        outputs.len() == calls.len(),
        forall|i: int|
            0 <= i < calls.len() ==> (#[trigger] outputs[i]).id@ == calls[i].id
                && outputs[i].json@ == calls[i].json && outputs[i].output_type@ == (
            match calls[i].output_type {
                Some(given) => given,
                None => "workflow"@,
            }),
{
    assert(output_views(outputs).len() == outputs.len());
    assert(outputs_of(calls).len() == calls.len());
    assert forall|i: int| 0 <= i < calls.len() implies (#[trigger] outputs[i]).id@ == calls[i].id
        && outputs[i].json@ == calls[i].json && outputs[i].output_type@ == (
    match calls[i].output_type {
        Some(given) => given,
        None => "workflow"@,
    }) by {
        assert(output_views(outputs)[i] == outputs[i]@);
        assert(outputs_of(calls)[i] == output_of(calls[i]));
    }
}

/// What the contracts see of an output is what it holds.
pub proof fn law_output_view(output: BuildOutput)
    ensures
        output@.id == output.id@,
        output@.json == output.json@,
        output@.output_type == output.output_type@,
{
}

} // verus!
