use raytracer::integrator::{radiance, simple_radiance, Bounce, Scatter};

type Color = [f32; 3];

fn combine(e: Color, a: Color, l: Color) -> Color {
    [e[0] + a[0] * l[0], e[1] + a[1] * l[1], e[2] + a[2] * l[2]]
}

/// Every ray meets a glowing surface that also scatters half of what
/// arrives, onto a ray one step further along.
fn glowing(r: &u32) -> Option<Bounce<Color, u32>> {
    Some(Bounce {
        emitted: [1.0, 2.0, 0.0],
        scatter: Some(Scatter { attenuation: [0.5, 0.5, 0.25], ray: *r + 1 }),
    })
}

#[test]
fn spent_depth_gives_black_whatever_the_world() {
    let black = [0.0f32; 3];
    for depth in [0, -1, -50] {
        let c = radiance(&0u32, [0.7, 0.8, 1.0], black, depth, &glowing, &combine);
        assert_eq!(c, black);
    }
}

#[test]
fn scattered_light_is_emitted_plus_attenuated_incoming() {
    let c = radiance(&0u32, [9.0; 3], [0.0; 3], 1, &glowing, &combine);
    assert_eq!(c, [1.0, 2.0, 0.0]);
    let c = radiance(&0u32, [9.0; 3], [0.0; 3], 3, &glowing, &combine);
    assert_eq!(c, [1.75, 3.5, 0.0]);
}

#[test]
fn absorbed_ray_returns_the_emission_alone() {
    let light = |_r: &u32| -> Option<Bounce<Color, u32>> {
        Some(Bounce { emitted: [4.0, 4.0, 4.0], scatter: None })
    };
    let c = radiance(&0u32, [0.5; 3], [0.0; 3], 50, &light, &combine);
    assert_eq!(c, [4.0, 4.0, 4.0]);
}

#[test]
fn ray_leaving_the_scene_picks_up_the_background() {
    // Two bounces on a grey wall, then off into the sky.
    let world = |r: &u32| -> Option<Bounce<Color, u32>> {
        if *r < 2 {
            Some(Bounce {
                emitted: [0.0; 3],
                scatter: Some(Scatter { attenuation: [0.5; 3], ray: *r + 1 }),
            })
        } else {
            None
        }
    };
    let c = radiance(&0u32, [0.8, 0.4, 1.0], [0.0; 3], 10, &world, &combine);
    assert_eq!(c, [0.2, 0.1, 0.25]);
    let c = radiance(&0u32, [0.8, 0.4, 1.0], [0.0; 3], 2, &world, &combine);
    assert_eq!(c, [0.0; 3]);
}

#[test]
fn single_bounce_shading() {
    assert_eq!(simple_radiance(&0u32, [0.1; 3], &glowing), [0.5, 0.5, 0.25]);
    let none = |_r: &u32| -> Option<Bounce<Color, u32>> { None };
    assert_eq!(simple_radiance(&0u32, [0.1; 3], &none), [0.1; 3]);
    let light = |_r: &u32| -> Option<Bounce<Color, u32>> {
        Some(Bounce { emitted: [3.0; 3], scatter: None })
    };
    assert_eq!(simple_radiance(&0u32, [0.1; 3], &light), [3.0; 3]);
}
