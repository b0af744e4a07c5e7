//! The decisions of the recursive light-transport routine.
//!
//! `trace` follows a ray through the scene: find the nearest hit, then
//! reflect, refract, emit or give up depending on the material, the side
//! the surface was met from, and the remaining bounce budget. The
//! floating-point work — intersection distances, Fresnel reflectance,
//! refraction directions, the colors themselves — is the host's; every
//! branch the routine takes is decided here, against an exact
//! specification.

use crate::render::RenderOptions;
use vstd::prelude::*;

verus! {

/// The behavior class of a surface material.
#[derive(Clone, Copy, Debug, PartialEq, Eq)]
pub enum MaterialKind {
    /// A transparent solid: reflects and refracts, absorbs on interior paths.
    Refractive,
    /// The diffuse shading path, which does not exist yet.
    Diffuse,
    /// An emissive surface that terminates the ray with its own color.
    Light,
}

/// What the nearest-hit query found, stripped to what the next decision
/// depends on.
#[derive(Clone, Copy, Debug)]
pub struct HitClass {
    /// Behavior class of the surface that was hit.
    pub kind: MaterialKind,
    /// Whether the ray met the surface from the side its normal points to.
    pub front_face: bool,
}

/// What one step of the trace does next.
#[derive(Clone, Copy, Debug, PartialEq, Eq)]
pub enum TraceStep {
    /// A primary ray left the scene: return the configured background color.
    Background,
    /// A deeper ray left the scene: evaluate the ambient lighting model.
    Ambient,
    /// The bounce budget is exhausted on a non-emissive surface: return
    /// exactly black, discarding the material's energy.
    Black,
    /// An emissive surface: return its stored color, whatever the budget.
    Emit,
    /// A refractive surface: always trace the reflection ray; trace the
    /// refraction ray only when `trace_refraction` holds; and when
    /// `attenuate` holds (the hit was on an interior face), damp the
    /// combined color by the absorption of the path through the medium.
    Refract { trace_refraction: bool, attenuate: bool },
}

/// The one failure of the engine: the diffuse path is not implemented, and
/// reaching it must be loud, not a silent black.
#[derive(Clone, Copy, Debug, PartialEq, Eq)]
pub enum TraceError {
    /// A ray with bounces to spend reached a diffuse surface.
    DiffuseUnimplemented,
}

impl RenderOptions {
    /// The decision table of one trace step, as a function: emissive hits
    /// win over everything, an exhausted budget turns any other hit black,
    /// the diffuse gap fails, and a refractive hit refracts unless total
    /// internal reflection or the pavilion-exit guard forbids it.
    pub open spec fn trace_step_spec(
        self,
        hit: Option<HitClass>,
        bounces_left: int,
        total_internal: bool,
        exiting_pavilion: bool,
    ) -> Result<TraceStep, TraceError> {
        match hit {
            None => if bounces_left == self.max_bounces {
                Ok(TraceStep::Background)
            } else {
                Ok(TraceStep::Ambient)
            },
            Some(h) => if h.kind == MaterialKind::Light {
                Ok(TraceStep::Emit)
            } else if bounces_left == 0 {
                Ok(TraceStep::Black)
            } else if h.kind == MaterialKind::Diffuse {
                Err(TraceError::DiffuseUnimplemented)
            } else {
                Ok(
                    TraceStep::Refract {
                        trace_refraction: !total_internal && !exiting_pavilion,
                        attenuate: !h.front_face,
                    },
                )
            },
        }
    }

    /// Decide what one step of the trace does. `bounces_left` equal to the
    /// configured maximum marks the primary ray. `total_internal` reports a
    /// reflectance of one or more (at or beyond the critical angle);
    /// `exiting_pavilion` the geometry-specific guard against rays leaving
    /// through the lower facets from inside. Both matter only on
    /// refractive hits.
    ///
    /// A hit on a non-emissive surface with no bounces left is exactly
    /// black; a hit on an emissive surface emits whatever the budget; the
    /// diffuse gap is the only error, exactly when a ray with budget
    /// reaches it.
    pub fn trace_step(
        &self,
        hit: Option<HitClass>,
        bounces_left: usize,
        total_internal: bool,
        exiting_pavilion: bool,
    ) -> (r: Result<TraceStep, TraceError>)
        ensures
            r == self.trace_step_spec(
                hit,
                bounces_left as int,
                total_internal,
                exiting_pavilion,
            ),
            (hit matches Some(h) && h.kind == MaterialKind::Light) ==> r == Ok::<
                TraceStep,
                TraceError,
            >(TraceStep::Emit),
            (hit matches Some(h) && h.kind != MaterialKind::Light && bounces_left == 0) ==> r
                == Ok::<TraceStep, TraceError>(TraceStep::Black),
            r is Err <==> (hit matches Some(h) && h.kind == MaterialKind::Diffuse && bounces_left
                > 0),
            hit is None ==> r == (if bounces_left == self.max_bounces {
                Ok::<TraceStep, TraceError>(TraceStep::Background)
            } else {
                Ok::<TraceStep, TraceError>(TraceStep::Ambient)
            }),
    {
        match hit {
            None => if bounces_left == self.max_bounces {
                Ok(TraceStep::Background)
            } else {
                Ok(TraceStep::Ambient)
            },
            Some(h) => match h.kind {
                MaterialKind::Light => Ok(TraceStep::Emit),
                MaterialKind::Diffuse => if bounces_left == 0 {
                    Ok(TraceStep::Black)
                } else {
                    Err(TraceError::DiffuseUnimplemented)
                },
                MaterialKind::Refractive => if bounces_left == 0 {
                    Ok(TraceStep::Black)
                } else {
                    Ok(
                        TraceStep::Refract {
                            trace_refraction: !total_internal && !exiting_pavilion,
                            attenuate: !h.front_face,
                        },
                    )
                },
            },
        }
    }
}

} // verus!
