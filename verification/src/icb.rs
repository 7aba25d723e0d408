//! The indirect-command operations.

use vstd::prelude::*;
use crate::access::{AccessMode, Participation, ParticipationExtent};
use crate::bind::IndirectSource;
use crate::identity::ResourceId;

verus! {

/// A run of commands in an indirect command buffer.
#[derive(Clone, Copy, Debug, PartialEq, Eq, Structural)]
pub struct CommandRange {
    pub location: u64,
    pub length: u64,
}

impl Default for CommandRange {
    fn default() -> (r: CommandRange)
        ensures
            r == (CommandRange { location: 0, length: 0 }),
    {
        CommandRange { location: 0, length: 0 }
    }
}

/// One indirect-command operation.
#[derive(Clone, Copy, Debug, PartialEq, Eq, Structural)]
pub enum IcbOp {
    /// Run a range of recorded commands.
    ExecuteRange { icb: ResourceId, commands: CommandRange },
    /// Run the range a buffer names.
    ExecuteIndirect { icb: ResourceId, arguments: IndirectSource },
    /// Rewrite a range of recorded commands in place.
    Optimize { icb: ResourceId, commands: CommandRange },
}

impl IcbOp {
    /// What the record itself touches: running commands reads the command
    /// buffer, and an indirect run reads its arguments too; optimizing rewrites
    /// the command buffer.
    pub open spec fn footprint(self) -> Seq<Participation> {
        match self {
            IcbOp::ExecuteRange { icb, .. } => seq![
                Participation {
                    resource: icb,
                    extent: ParticipationExtent::Whole,
                    mode: AccessMode::Read,
                    api_stages: 0,
                },
            ],
            IcbOp::ExecuteIndirect { icb, arguments } => seq![
                Participation {
                    resource: icb,
                    extent: ParticipationExtent::Whole,
                    mode: AccessMode::Read,
                    api_stages: 0,
                },
                Participation {
                    resource: arguments.buffer,
                    extent: ParticipationExtent::Whole,
                    mode: AccessMode::Read,
                    api_stages: 0,
                },
            ],
            IcbOp::Optimize { icb, .. } => seq![
                Participation {
                    resource: icb,
                    extent: ParticipationExtent::Whole,
                    mode: AccessMode::ReadWrite,
                    api_stages: 0,
                },
            ],
        }
    }

    pub fn participations(&self, out: &mut Vec<Participation>)
        ensures
            final(out)@ == old(out)@ + self.footprint(),
    {
        let extent = ParticipationExtent::Whole;
        match *self {
            IcbOp::ExecuteRange { icb, .. } => {
                out.push(
                    Participation { resource: icb, extent, mode: AccessMode::Read, api_stages: 0 },
                );
            },
            IcbOp::ExecuteIndirect { icb, arguments } => {
                out.push(
                    Participation { resource: icb, extent, mode: AccessMode::Read, api_stages: 0 },
                );
                out.push(
                    Participation {
                        resource: arguments.buffer,
                        extent,
                        mode: AccessMode::Read,
                        api_stages: 0,
                    },
                );
            },
            IcbOp::Optimize { icb, .. } => {
                out.push(
                    Participation {
                        resource: icb,
                        extent,
                        mode: AccessMode::ReadWrite,
                        api_stages: 0,
                    },
                );
            },
        }
        assert(out@ =~= old(out)@ + self.footprint());
    }
}

/// Every record touches the whole of its command buffer. Running commands only
/// reads, running the range a buffer names reads that buffer too, and
/// optimizing reads and writes.
pub proof fn indirect_commands_touch_their_buffers(op: IcbOp)
    ensures
        ({
            let icb = match op {
                IcbOp::ExecuteRange { icb, .. } => icb,
                IcbOp::ExecuteIndirect { icb, .. } => icb,
                IcbOp::Optimize { icb, .. } => icb,
            };
            let touched = op.footprint();
            &&& touched.len() > 0 && touched[0].resource == icb
            &&& touched.len() == if op is ExecuteIndirect {
                2int
            } else {
                1int
            }
            &&& op matches IcbOp::ExecuteIndirect { arguments, .. } ==> touched[1].resource
                == arguments.buffer && touched[1].mode is Read
            &&& touched[0].mode is ReadWrite <==> op is Optimize
            &&& touched[0].mode is Read <==> !(op is Optimize)
            &&& forall|i: int|
                0 <= i < touched.len() ==> (#[trigger] touched[i]).extent is Whole
        }),
{
}

} // verus!
