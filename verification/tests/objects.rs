use rusty_ray_tracer::objects::{BacksideIntersection, MaterialKind, SampleWeighting};
use rusty_ray_tracer::settings::LogLevel;

#[test]
fn back_sides_count_only_when_rays_end_there() {
    assert!(BacksideIntersection::Ignore.accepts_hit(true));
    assert!(!BacksideIntersection::Ignore.accepts_hit(false));
    assert!(BacksideIntersection::EndRay.accepts_hit(true));
    assert!(BacksideIntersection::EndRay.accepts_hit(false));
}

#[test]
fn backside_mode_from_configuration_value() {
    assert_eq!(BacksideIntersection::from_config("end_ray"), BacksideIntersection::EndRay);
    assert_eq!(BacksideIntersection::from_config("ignore"), BacksideIntersection::Ignore);
    assert_eq!(BacksideIntersection::from_config("end_ray "), BacksideIntersection::Ignore);
    assert_eq!(BacksideIntersection::from_config("END_RAY"), BacksideIntersection::Ignore);
    assert_eq!(BacksideIntersection::from_config(""), BacksideIntersection::Ignore);
}

#[test]
fn materials_named_light_are_light_sources() {
    assert_eq!(MaterialKind::from_material_name("light"), MaterialKind::DiffuseLightSource);
    assert_eq!(MaterialKind::from_material_name("Light"), MaterialKind::DiffuseLightSource);
    assert_eq!(MaterialKind::from_material_name("light_source"), MaterialKind::DiffuseLightSource);
    assert_eq!(MaterialKind::from_material_name("ceilingLight2"), MaterialKind::DiffuseLightSource);
    assert_eq!(MaterialKind::from_material_name("LIGHT"), MaterialKind::Diffuse);
    assert_eq!(MaterialKind::from_material_name("ligh"), MaterialKind::Diffuse);
    assert_eq!(MaterialKind::from_material_name("white_wall"), MaterialKind::Diffuse);
    assert_eq!(MaterialKind::from_material_name(""), MaterialKind::Diffuse);
    assert_eq!(MaterialKind::from_material_name("lümlight"), MaterialKind::DiffuseLightSource);
}

#[test]
fn only_light_sources_emit_light() {
    assert!(MaterialKind::DiffuseLightSource.is_light_source());
    assert!(!MaterialKind::Diffuse.is_light_source());
    assert!(!MaterialKind::Specular.is_light_source());
    assert!(!MaterialKind::SpecularDiffuse.is_light_source());
}

#[test]
fn sample_weightings_are_distinct() {
    assert_ne!(SampleWeighting::Uniform, SampleWeighting::Cosine);
}

#[test]
fn log_levels_from_names() {
    assert_eq!(LogLevel::from_name("TRACE"), LogLevel::Trace);
    assert_eq!(LogLevel::from_name("DEBUG"), LogLevel::Debug);
    assert_eq!(LogLevel::from_name("INFO"), LogLevel::Info);
    assert_eq!(LogLevel::from_name("WARN"), LogLevel::Warn);
    assert_eq!(LogLevel::from_name("ERROR"), LogLevel::Error);
    assert_eq!(LogLevel::from_name("OFF"), LogLevel::Off);
    assert_eq!(LogLevel::from_name("info"), LogLevel::Off);
    assert_eq!(LogLevel::from_name("verbose"), LogLevel::Off);
}
