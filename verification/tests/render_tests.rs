use culet::render::{chunk_pixels, pixel_coords, pixel_index, run_chunk, AbortSignal,
    LightingModel, RenderOptions};

#[test]
fn default_configuration() {
    let o = RenderOptions::new();
    assert_eq!(o.image_width, 1280);
    assert_eq!(o.image_height, 720);
    assert_eq!(o.samples_per_pixel, 1);
    assert_eq!(o.max_bounces, 1);
    assert_eq!(o.threads, 1);
    assert!(matches!(o.lighting_model, LightingModel::Cosine));
}

#[test]
fn builders_replace_one_field_each() {
    let o = RenderOptions::new()
        .image_width(720)
        .image_height(480)
        .samples_per_pixel(4)
        .max_bounces(8)
        .lighting_model(LightingModel::Isometric)
        .threads(3);
    assert_eq!(o.image_width, 720);
    assert_eq!(o.image_height, 480);
    assert_eq!(o.samples_per_pixel, 4);
    assert_eq!(o.max_bounces, 8);
    assert_eq!(o.threads, 3);
    assert!(matches!(o.lighting_model, LightingModel::Isometric));
}

#[test]
fn abort_signal_starts_unset() {
    let s = AbortSignal::new();
    assert!(!s.is_aborted());
}

#[test]
fn abort_signal_is_shared_by_clones() {
    let s = AbortSignal::new();
    let t = s.clone();
    assert!(!t.is_aborted());
    s.abort();
    assert!(t.is_aborted());
    assert!(s.is_aborted());
}

#[test]
fn pixel_index_and_coords_invert_each_other() {
    assert_eq!(pixel_index(3, 2, 10, 5), 23);
    assert_eq!(pixel_coords(23, 10), (3, 2));
    for i in 0..50 {
        let (x, y) = pixel_coords(i, 10);
        assert_eq!(pixel_index(x, y, 10, 5), i);
    }
}

#[test]
fn chunks_lay_the_list_end_to_end() {
    let pixels: Vec<usize> = (0..7).collect();
    let chunks = chunk_pixels(&pixels, 3);
    assert_eq!(chunks, vec![vec![0, 1, 2], vec![3, 4, 5], vec![6]]);
}

#[test]
fn chunking_an_exact_multiple() {
    let pixels: Vec<usize> = (10..16).collect();
    let chunks = chunk_pixels(&pixels, 2);
    assert_eq!(chunks, vec![vec![10, 11], vec![12, 13], vec![14, 15]]);
}

#[test]
fn plan_assigns_every_pixel_exactly_once() {
    let o = RenderOptions::new().image_width(4).image_height(2).threads(3);
    let plan = o.render_plan();
    assert!(plan.len() <= 3);
    assert!(plan.iter().all(|c| !c.is_empty()));
    let mut all: Vec<usize> = plan.into_iter().flatten().collect();
    all.sort();
    assert_eq!(all, (0..8).collect::<Vec<usize>>());
}

#[test]
fn plan_for_an_empty_image_is_empty() {
    let o = RenderOptions::new().image_width(0).image_height(32);
    assert!(o.render_plan().is_empty());
}

#[test]
fn a_worker_emits_a_prefix_until_cancelled() {
    let chunk: Vec<usize> = vec![5, 3, 9, 7, 1];

    // the shader declines from the fourth pixel on, as if cancellation
    // had been seen there: exactly the shaded prefix comes back
    let calls = std::cell::Cell::new(0usize);
    let shade = |i: usize| -> Option<usize> {
        let c = calls.get();
        calls.set(c + 1);
        if c < 3 {
            Some(i * 10)
        } else {
            None
        }
    };
    let out = run_chunk(&chunk, &shade);
    assert_eq!(out, vec![(5, 50), (3, 30), (9, 90)]);

    let all = run_chunk(&chunk, &|i: usize| Some(i));
    assert_eq!(all.len(), 5);
    assert!(all.iter().zip(chunk.iter()).all(|(p, c)| p.0 == *c && p.1 == *c));

    let none = run_chunk(&chunk, &|_i: usize| Option::<usize>::None);
    assert!(none.is_empty());
}

#[test]
fn plan_order_is_reproducible() {
    let o = RenderOptions::new().image_width(16).image_height(16).threads(4);
    let a = o.render_plan();
    let b = o.render_plan();
    assert_eq!(a, b);
}
