use culet::render::RenderOptions;
use culet::trace::{HitClass, MaterialKind, TraceError, TraceStep};

fn hit(kind: MaterialKind, front_face: bool) -> Option<HitClass> {
    Some(HitClass { kind, front_face })
}

#[test]
fn light_emits_whatever_the_budget() {
    let o = RenderOptions::new().max_bounces(8);
    let h = hit(MaterialKind::Light, true);
    assert_eq!(o.trace_step(h, 0, false, false), Ok(TraceStep::Emit));
    assert_eq!(o.trace_step(h, 8, false, false), Ok(TraceStep::Emit));
    let back = hit(MaterialKind::Light, false);
    assert_eq!(o.trace_step(back, 3, true, true), Ok(TraceStep::Emit));
}

#[test]
fn exhausted_budget_returns_exactly_black() {
    let o = RenderOptions::new().max_bounces(8);
    let refr = hit(MaterialKind::Refractive, true);
    let diff = hit(MaterialKind::Diffuse, true);
    assert_eq!(o.trace_step(refr, 0, false, false), Ok(TraceStep::Black));
    assert_eq!(o.trace_step(diff, 0, false, false), Ok(TraceStep::Black));
}

#[test]
fn diffuse_fails_loudly() {
    let o = RenderOptions::new().max_bounces(8);
    let diff = hit(MaterialKind::Diffuse, true);
    assert_eq!(o.trace_step(diff, 5, false, false), Err(TraceError::DiffuseUnimplemented));
}

#[test]
fn missed_primary_ray_sees_the_background() {
    let o = RenderOptions::new().max_bounces(4);
    assert_eq!(o.trace_step(None, 4, false, false), Ok(TraceStep::Background));
    assert_eq!(o.trace_step(None, 3, false, false), Ok(TraceStep::Ambient));
    assert_eq!(o.trace_step(None, 0, false, false), Ok(TraceStep::Ambient));
}

#[test]
fn refraction_is_traced_unless_forbidden() {
    let o = RenderOptions::new().max_bounces(4);
    let front = hit(MaterialKind::Refractive, true);
    assert_eq!(
        o.trace_step(front, 2, false, false),
        Ok(TraceStep::Refract { trace_refraction: true, attenuate: false })
    );
    // at or beyond the critical angle: reflection only
    assert_eq!(
        o.trace_step(front, 2, true, false),
        Ok(TraceStep::Refract { trace_refraction: false, attenuate: false })
    );
    // the pavilion-exit guard also wins over refraction
    let back = hit(MaterialKind::Refractive, false);
    assert_eq!(
        o.trace_step(back, 2, false, true),
        Ok(TraceStep::Refract { trace_refraction: false, attenuate: true })
    );
    // interior hits attenuate the combined color
    assert_eq!(
        o.trace_step(back, 2, false, false),
        Ok(TraceStep::Refract { trace_refraction: true, attenuate: true })
    );
}
