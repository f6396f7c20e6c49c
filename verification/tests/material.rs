use in1weekend::material::{
    refracts, Dielectric, DiffuseLight, Isotropic, Lambertian, Lobe, Material, Metal, Nudge, Side,
};
use in1weekend::scalar::Scalar;
use in1weekend::shape::ConstantMedium;
use in1weekend::texture::{Cell, Checkerboard, DebugDistance, DebugNormal, DebugPoint, DebugUV};

fn s(x: f32) -> Scalar {
    Scalar::from_bits(x.to_bits()).unwrap()
}

#[test]
fn lights_and_glass_are_important() {
    assert!(!Lambertian { albedo: () }.important());
    assert!(!Metal { albedo: (), fuzz: s(0.0) }.important());
    assert!(Dielectric { refraction: s(1.52), attenuation: () }.important());
    assert!(DiffuseLight { value: () }.important());
    assert!(!Isotropic { albedo: () }.important());
}

#[test]
fn only_a_light_emits() {
    assert!(!Lambertian { albedo: () }.emits());
    assert!(!Metal { albedo: (), fuzz: s(0.0) }.emits());
    assert!(!Dielectric { refraction: s(1.52), attenuation: () }.emits());
    assert!(DiffuseLight { value: () }.emits());
    assert!(!Isotropic { albedo: () }.emits());
}

#[test]
fn a_diffuse_surface_always_scatters() {
    let m = Lambertian { albedo: () };
    assert_eq!(m.scatter(false, false), Some(Lobe::Cosine));
    assert_eq!(m.scatter(false, true), Some(Lobe::Cosine));
    assert_eq!(m.scatter(true, false), Some(Lobe::Cosine));
    assert_eq!(m.scatter(true, true), Some(Lobe::Important));
}

#[test]
fn a_mirror_rejects_what_points_into_the_surface() {
    let m = Metal { albedo: (), fuzz: s(0.3) };
    assert_eq!(m.scatter(s(1.0)), Some(Lobe::Mirror));
    assert_eq!(m.scatter(s(1.0e-30)), Some(Lobe::Mirror));
    assert_eq!(m.scatter(s(0.0)), None);
    assert_eq!(m.scatter(s(-0.0)), None);
    assert_eq!(m.scatter(s(-0.2)), None);
}

#[test]
fn glass_reflects_or_refracts() {
    let m = Dielectric { refraction: s(1.5), attenuation: () };
    assert_eq!(m.scatter(true, s(0.9), s(0.04)), Some(Lobe::Refract));
    assert_eq!(m.scatter(true, s(0.03), s(0.04)), Some(Lobe::Reflect));
    assert_eq!(m.scatter(true, s(0.04), s(0.04)), Some(Lobe::Reflect));
    assert_eq!(m.scatter(false, s(0.9), s(0.04)), Some(Lobe::Reflect));
    assert_eq!(m.scatter(false, s(0.9), s(0.0)), Some(Lobe::Reflect));
    assert_eq!(m.side(s(0.7)), Side::Leaving);
    assert_eq!(m.side(s(-0.7)), Side::Entering);
    assert_eq!(m.side(s(0.0)), Side::Entering);
}

#[test]
fn a_surface_that_reflects_nothing_mirrors_nothing() {
    let m = Dielectric { refraction: s(1.5), attenuation: () };
    for sample in [0.0f32, 1.0e-30, 0.5, 0.999] {
        assert_eq!(m.scatter(true, s(sample), s(0.0)), Some(Lobe::Refract));
        assert_eq!(m.scatter(true, s(sample), s(-0.0)), Some(Lobe::Refract));
        assert_eq!(m.scatter(true, s(sample), s(-0.25)), Some(Lobe::Refract));
    }
}

#[test]
fn glass_of_ratio_one_passes_every_ray_that_can_pass() {
    let m = Dielectric { refraction: s(1.0), attenuation: () };
    for sample in [0.0f32, 0.3, 0.999] {
        for reflectance in [0.0f32, 0.2, 1.0] {
            let lobe = m.scatter(true, s(sample), s(reflectance)).unwrap();
            assert_eq!(lobe, Lobe::Refract);
            assert_eq!(lobe.nudge(), Nudge::In);
        }
    }
    // Normal incidence: the discriminant is one and the reflectance zero.
    assert!(refracts(s(1.0)));
    assert_eq!(m.scatter(true, s(0.0), s(0.0)), Some(Lobe::Refract));
}

#[test]
fn a_ray_that_cannot_pass_is_mirrored_by_every_glass() {
    for ratio in [1.0f32, 1.52, 0.66, -1.3] {
        let m = Dielectric { refraction: s(ratio), attenuation: () };
        for sample in [0.0f32, 0.3, 0.999] {
            for reflectance in [-0.5f32, 0.0, 0.2, 1.0] {
                let lobe = m.scatter(false, s(sample), s(reflectance)).unwrap();
                assert_eq!(lobe, Lobe::Reflect);
                assert_eq!(lobe.nudge(), Nudge::Out);
            }
        }
    }
    // A grazing ray at ratio one: the discriminant is the square of a cosine of zero.
    assert!(!refracts(s(0.0)));
}

#[test]
fn total_reflection_where_the_discriminant_is_not_positive() {
    assert!(refracts(s(0.25)));
    assert!(!refracts(s(0.0)));
    assert!(!refracts(s(-0.25)));
}

#[test]
fn a_light_scatters_nothing_and_a_volume_anywhere() {
    assert_eq!(DiffuseLight { value: () }.scatter(), None);
    assert_eq!(Isotropic { albedo: () }.scatter(), Some(Lobe::Uniform));
}

#[test]
fn only_a_refracted_ray_starts_inside() {
    assert_eq!(Lobe::Refract.nudge(), Nudge::In);
    for lobe in [Lobe::Cosine, Lobe::Important, Lobe::Mirror, Lobe::Reflect, Lobe::Uniform] {
        assert_eq!(lobe.nudge(), Nudge::Out);
    }
}

#[test]
fn a_medium_scatters_where_the_free_path_is_shorter_than_the_chord() {
    let fog = ConstantMedium { shape: (), density: s(0.2) };
    assert!(fog.scatters(Some(s(1.0)), Some(s(2.0)), s(0.7), s(2.0)));
    assert!(!fog.scatters(Some(s(1.0)), Some(s(2.0)), s(2.0), s(2.0)));
    assert!(!fog.scatters(Some(s(1.0)), Some(s(2.0)), s(2.5), s(2.0)));
    assert!(!fog.scatters(None, Some(s(2.0)), s(0.7), s(2.0)));
    assert!(!fog.scatters(Some(s(1.0)), None, s(0.7), s(2.0)));
}

#[test]
fn a_checkerboard_is_odd_where_the_product_is_negative() {
    let board = Checkerboard { even: 0u8, odd: 1u8, size: s(10.0) };
    assert_eq!(board.cell(s(-0.3)), Cell::Odd);
    assert_eq!(board.cell(s(0.3)), Cell::Even);
    assert_eq!(board.cell(s(0.0)), Cell::Even);
    assert_eq!(board.cell(s(-0.0)), Cell::Even);
}

#[test]
fn debug_textures_are_plain_values() {
    assert_eq!(DebugUV, DebugUV);
    assert_eq!(DebugPoint, DebugPoint);
    assert_eq!(DebugNormal, DebugNormal);
    assert_eq!(DebugDistance, DebugDistance);
}

#[test]
fn a_diffuse_surface_gives_back_no_more_than_its_albedo() {
    let m = Lambertian { albedo: () };
    assert_eq!(m.factor(true, s(0.25)), s(0.25));
    assert_eq!(m.factor(true, s(0.0)), s(0.0));
    assert_eq!(m.factor(true, s(1.0)), s(1.0));
    assert_eq!(m.factor(true, s(1.5)), s(1.0));
    assert_eq!(m.factor(true, s(f32::INFINITY)), s(1.0));
    assert_eq!(m.factor(true, s(-0.5)), s(0.0));
    for albedo in [0.0f32, 0.2, 0.73, 1.0] {
        for ratio in [0.0f32, 0.1013, 0.5, 1.0, 2.0] {
            for importance in [true, false] {
                let w = f32::from_bits(m.factor(importance, s(ratio)).to_bits());
                assert!(albedo * w <= albedo);
            }
        }
    }
}

#[test]
fn the_cosine_lobe_alone_attenuates_by_the_albedo() {
    let m = Lambertian { albedo: () };
    for ratio in [0.0f32, 0.1013, 0.3183, 1.0, 7.0, -2.0] {
        assert_eq!(m.factor(false, s(ratio)), s(1.0));
        let w = f32::from_bits(m.factor(false, s(ratio)).to_bits());
        assert_eq!(0.73 * w, 0.73);
    }
}
