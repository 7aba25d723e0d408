//! The content-representation operations, and the one of them that has teeth.
//!
//! A synchronise says the guest's own pages must be current for the named
//! content, which is a statement about a replica and so is checkable. The
//! others are about representations this model does not describe; they are
//! carried, and no effect is invented for them.

use vstd::prelude::*;
use crate::access::{AccessMode, Participation, ParticipationExtent, SubresourceRange};
use crate::content::Replica;
use crate::identity::ResourceId;

verus! {

/// What a content record asks for.
#[derive(Clone, Copy, Debug, PartialEq, Eq, PartialOrd, Ord, Hash, Structural)]
pub enum ContentDirective {
    /// The guest's pages must be current for the named content.
    Synchronize,
    OptimizeForCpu,
    OptimizeForGpu,
    InvalidateCompressed,
    FlushCompressedReinterpretation,
}

/// How much a content record names.
#[derive(Clone, Copy, Debug, PartialEq, Eq, PartialOrd, Ord, Hash, Structural)]
pub enum ContentGranularity {
    WholeResource,
    SliceLevel,
    Encoder,
}

/// A texture subresource named by slice and level.
#[derive(Clone, Copy, Debug, PartialEq, Eq, PartialOrd, Ord, Hash, Structural)]
pub struct SliceLevel {
    pub slice: u16,
    pub level: u16,
}

impl SliceLevel {
    /// The window of one level of one slice.
    pub open spec fn window(self) -> SubresourceRange {
        SubresourceRange {
            base_level: self.level as u32,
            level_count: 1,
            base_slice: self.slice as u32,
            slice_count: 1,
            plane: 0,
        }
    }

    /// The one level and one slice this names.
    #[must_use]
    pub fn subresource(self) -> (window: SubresourceRange)
        ensures
            window == self.window(),
    {
        SubresourceRange {
            base_level: self.level as u32,
            level_count: 1,
            base_slice: self.slice as u32,
            slice_count: 1,
            plane: 0,
        }
    }
}

/// What a content record is about.
#[derive(Clone, Copy, Debug, PartialEq, Eq, Structural)]
pub enum ResourceStateTarget {
    /// One resource. `None` is the whole of it, which is not slice 0, level 0.
    Resource { resource: ResourceId, subresource: Option<SliceLevel> },
    /// The encoder, with no resource named.
    Encoder,
}

/// One content-representation operation.
#[derive(Clone, Copy, Debug, PartialEq, Eq, Structural)]
pub struct ResourceStateOp {
    pub directive: ContentDirective,
    pub target: ResourceStateTarget,
}

impl ResourceStateOp {
    /// The granularity the record was sent at.
    #[must_use]
    pub fn granularity(&self) -> (granularity: ContentGranularity)
        ensures
            granularity == (match self.target {
                ResourceStateTarget::Resource { subresource: Some(_), .. } =>
                ContentGranularity::SliceLevel,
                ResourceStateTarget::Resource { subresource: None, .. } =>
                ContentGranularity::WholeResource,
                ResourceStateTarget::Encoder => ContentGranularity::Encoder,
            }),
    {
        match self.target {
            ResourceStateTarget::Resource { subresource: Some(_), .. } =>
            ContentGranularity::SliceLevel,
            ResourceStateTarget::Resource { subresource: None, .. } =>
            ContentGranularity::WholeResource,
            ResourceStateTarget::Encoder => ContentGranularity::Encoder,
        }
    }

    /// The replica that must be current when this operation completes: the
    /// guest's pages for a synchronise, and nothing for the rest.
    #[must_use]
    pub fn publication_requirement(&self) -> (required: Option<Replica>)
        ensures
            required == (if self.directive is Synchronize {
                Some(Replica::GuestPages)
            } else {
                None
            }),
    {
        match self.directive {
            ContentDirective::Synchronize => Some(Replica::GuestPages),
            _ => None,
        }
    }

    /// Whether what this operation costs depends on where the content is.
    #[must_use]
    pub fn depends_on_placement(&self) -> (depends: bool)
        ensures
            depends == (self.directive is Synchronize),
    {
        matches!(self.directive, ContentDirective::Synchronize)
    }

    /// What the record touches: a synchronise reads the content it publishes.
    pub open spec fn footprint(self) -> Seq<Participation> {
        match (self.directive, self.target) {
            (
                ContentDirective::Synchronize,
                ResourceStateTarget::Resource { resource, subresource },
            ) => seq![
                Participation {
                    resource,
                    extent: match subresource {
                        Some(s) => ParticipationExtent::Subresource(s.window()),
                        None => ParticipationExtent::Whole,
                    },
                    mode: AccessMode::Read,
                    api_stages: 0,
                },
            ],
            _ => Seq::empty(),
        }
    }

    pub fn participations(&self, out: &mut Vec<Participation>)
        ensures
            final(out)@ == old(out)@ + self.footprint(),
    {
        match (self.directive, self.target) {
            (
                ContentDirective::Synchronize,
                ResourceStateTarget::Resource { resource, subresource },
            ) => {
                let extent = match subresource {
                    Some(s) => ParticipationExtent::Subresource(s.subresource()),
                    None => ParticipationExtent::Whole,
                };
                out.push(
                    Participation { resource, extent, mode: AccessMode::Read, api_stages: 0 },
                );
            },
            _ => {},
        }
        assert(out@ =~= old(out)@ + self.footprint());
    }
}

/// A record that names a slice and a level names exactly one subresource, so
/// two records of different levels or slices are about different memory.
pub proof fn slice_levels_meet_only_when_equal(a: SliceLevel, b: SliceLevel)
    ensures
        a.window().meets(b.window()) <==> a == b,
{
    let x = a.window();
    let y = b.window();
    if a == b {
        let level = a.level as int;
        let slice = a.slice as int;
        assert(crate::access::span_has(x.base_level, x.level_count, level)
            && crate::access::span_has(y.base_level, y.level_count, level));
        assert(crate::access::span_has(x.base_slice, x.slice_count, slice)
            && crate::access::span_has(y.base_slice, y.slice_count, slice));
    }
}

/// A slice and a level name the one level of the one slice and no other.
pub proof fn a_slice_level_names_one_level_of_one_slice(s: SliceLevel, level: u32, slice: u32)
    ensures
        ({
            let w = s.window();
            (w.base_level <= level < w.base_level + w.level_count && w.base_slice <= slice
                < w.base_slice + w.slice_count) <==> level == s.level && slice == s.slice
        }),
{
}

/// A content record touches memory exactly when it synchronises a resource: it
/// then reads what it names, the whole of the resource where it names no slice
/// and level.
pub proof fn a_synchronise_reads_what_it_publishes(op: ResourceStateOp)
    ensures
        op.footprint().len() == if op.directive is Synchronize && op.target is Resource {
            1int
        } else {
            0int
        },
        op.footprint().len() > 0 ==> {
            let p = op.footprint()[0];
            &&& p.resource == op.target->Resource_resource
            &&& p.mode is Read
            &&& p.extent is Whole <==> op.target->Resource_subresource is None
            &&& op.target->Resource_subresource matches Some(s) ==> p.extent
                matches ParticipationExtent::Subresource(w) && w.base_level == s.level
                && w.base_slice == s.slice && w.level_count == 1 && w.slice_count == 1
        },
{
}

} // verus!
