//! The part of a render pass that is a cost before any draw.

use vstd::prelude::*;
use crate::access::{AccessMode, Participation, ParticipationExtent};
use crate::identity::ResourceId;

verus! {

/// The buffer a pass's occlusion queries write.
#[derive(Clone, Copy, Debug, PartialEq, Eq, Structural)]
pub struct VisibilityResultBuffer {
    pub buffer: ResourceId,
}

/// A pass descriptor.
#[derive(Clone, Copy, Debug, PartialEq, Eq, Structural)]
pub struct PassDescriptor {
    pub visibility_result_buffer: Option<VisibilityResultBuffer>,
}

impl PassDescriptor {
    /// A pass that names nothing.
    #[must_use]
    pub fn empty() -> (p: PassDescriptor)
        ensures
            p.visibility_result_buffer is None,
            p.footprint() == Seq::<Participation>::empty(),
    {
        PassDescriptor { visibility_result_buffer: None }
    }

    /// What the pass touches by itself.
    pub open spec fn footprint(self) -> Seq<Participation> {
        match self.visibility_result_buffer {
            Some(v) => seq![
                Participation {
                    resource: v.buffer,
                    extent: ParticipationExtent::Whole,
                    mode: AccessMode::Write,
                    api_stages: 0,
                },
            ],
            None => Seq::empty(),
        }
    }

    pub fn extend_participations(&self, out: &mut Vec<Participation>)
        ensures
            final(out)@ == old(out)@ + self.footprint(),
    {
        match self.visibility_result_buffer {
            Some(v) => {
                out.push(
                    Participation {
                        resource: v.buffer,
                        extent: ParticipationExtent::Whole,
                        mode: AccessMode::Write,
                        api_stages: 0,
                    },
                );
            },
            None => {},
        }
        assert(out@ =~= old(out)@ + self.footprint());
    }
}

/// A pass writes the buffer its occlusion queries report to, if it names one,
/// and touches nothing else by itself.
pub proof fn a_pass_writes_its_visibility_buffer(pass: PassDescriptor)
    ensures
        pass.visibility_result_buffer is None ==> pass.footprint().len() == 0,
        pass.visibility_result_buffer matches Some(v) ==> pass.footprint().len() == 1
            && pass.footprint()[0].resource == v.buffer && pass.footprint()[0].mode is Write
            && pass.footprint()[0].extent is Whole,
{
}

} // verus!
