use std::hash::{DefaultHasher, Hasher};

use skyscreen::effects::{
    make_alpha_display, make_color_map_display, make_flip_display, make_hash_display,
    reveal_threshold, BinaryColor, ColorMapping, Effect, FilterMapDisplay, NoopDisplay, Pixel,
};

fn px(x: i32, y: i32, color: BinaryColor) -> Pixel {
    Pixel { x, y, color }
}

fn std_hash(seed: u64, x: i32, y: i32) -> u64 {
    let mut h = DefaultHasher::new();
    h.write_u64(seed);
    h.write_i32(x);
    h.write_i32(y);
    h.finish()
}

fn sample() -> Vec<Pixel> {
    let mut v = Vec::new();
    for y in 0..6 {
        for x in 0..7 {
            let c = if (x + y) % 3 == 0 { BinaryColor::On } else { BinaryColor::Off };
            v.push(px(x, y, c));
        }
    }
    v
}

#[test]
fn alpha_display_drops_the_filtered_color() {
    let d = make_alpha_display(BinaryColor::Off);
    let input = vec![px(0, 0, BinaryColor::On), px(1, 0, BinaryColor::Off), px(2, 0, BinaryColor::On)];
    assert_eq!(d.draw_iter(&input), vec![px(0, 0, BinaryColor::On), px(2, 0, BinaryColor::On)]);
    assert_eq!(d.mapping(), Effect::Alpha(BinaryColor::Off));
}

#[test]
fn color_map_display_recolors() {
    let d = make_color_map_display(ColorMapping { off: BinaryColor::On, on: BinaryColor::Off });
    assert_eq!(d.map_pixel(px(3, 4, BinaryColor::On)), Some(px(3, 4, BinaryColor::Off)));
    assert_eq!(d.map_pixel(px(3, 4, BinaryColor::Off)), Some(px(3, 4, BinaryColor::On)));
}

#[test]
fn flip_display_mirrors_x() {
    let d = make_flip_display(250);
    assert_eq!(d.map_pixel(px(0, 7, BinaryColor::On)), Some(px(250, 7, BinaryColor::On)));
    assert_eq!(d.map_pixel(px(100, 1, BinaryColor::Off)), Some(px(150, 1, BinaryColor::Off)));
}

#[test]
fn flip_twice_is_identity() {
    let d = make_flip_display(250);
    let once = d.draw_iter(&sample());
    assert_eq!(d.draw_iter(&once), sample());
}

#[test]
fn hash_display_matches_default_hasher() {
    let seed = 0x1234_5678_9abc_def0;
    let target = u64::MAX / 3;
    let d = make_hash_display(seed, target);
    let input = sample();
    let expected: Vec<Pixel> =
        input.iter().copied().filter(|p| std_hash(seed, p.x, p.y) <= target).collect();
    assert_eq!(d.draw_iter(&input), expected);
    assert!(expected.len() < input.len());
}

#[test]
fn hash_display_with_full_target_keeps_all() {
    let d = make_hash_display(42, u64::MAX);
    assert_eq!(d.draw_iter(&sample()), sample());
}

#[test]
fn hash_display_with_zero_target_keeps_almost_none() {
    let d = make_hash_display(7, 0);
    let kept = d.draw_iter(&sample());
    assert!(kept.iter().all(|p| std_hash(7, p.x, p.y) == 0));
}

#[test]
fn stacked_filters_commute() {
    let a = make_alpha_display(BinaryColor::Off);
    let h = make_hash_display(99, u64::MAX / 2);
    let s = sample();
    assert_eq!(a.draw_iter(&h.draw_iter(&s)), h.draw_iter(&a.draw_iter(&s)));
}

#[test]
fn reveal_grows_with_steps() {
    let steps = 10;
    let mut last = 0;
    let s = sample();
    let mut shown = 0;
    for i in 1..=steps {
        let t = reveal_threshold(steps, i);
        assert!(t >= last);
        last = t;
        let kept = make_hash_display(5, t).draw_iter(&s);
        assert!(kept.len() >= shown);
        shown = kept.len();
    }
    assert_eq!(reveal_threshold(10, 10), (u64::MAX / 10) * 10);
    assert_eq!(reveal_threshold(10, 1), u64::MAX / 10);
}

#[test]
fn noop_display_forwards_everything() {
    let d = NoopDisplay::new();
    assert_eq!(d.draw_iter(&sample()), sample());
}

#[test]
fn filter_map_display_new_keeps_effect() {
    let d = FilterMapDisplay::new(Effect::Flip(10));
    assert_eq!(d.mapping(), Effect::Flip(10));
    assert_eq!(d.map_pixel(px(3, 3, BinaryColor::On)), Some(px(7, 3, BinaryColor::On)));
}

use skyscreen::effects::Reveal;
use skyscreen::typing::typed_prefix;

#[test]
fn lower_hash_target_gives_subsequence() {
    let s = sample();
    let low = make_hash_display(11, u64::MAX / 4).draw_iter(&s);
    let high = make_hash_display(11, u64::MAX / 2).draw_iter(&s);
    let filtered: Vec<Pixel> =
        high.iter().copied().filter(|p| std_hash(11, p.x, p.y) <= u64::MAX / 4).collect();
    assert_eq!(low, filtered);
}

#[test]
fn reveal_step_displays() {
    let r = Reveal::with_seed(5, 10);
    assert_eq!((r.seed(), r.steps()), (5, 10));
    assert_eq!(
        r.step_display(3).mapping(),
        Effect::Hash { seed: 5, target: (u64::MAX / 10) * 3 }
    );
    let random = Reveal::new(4);
    assert_eq!(random.steps(), 4);
    assert_eq!(
        random.step_display(4).mapping(),
        Effect::Hash { seed: random.seed(), target: (u64::MAX / 4) * 4 }
    );
}

#[test]
fn typed_prefixes() {
    let text = "Cutie detected...";
    assert_eq!(typed_prefix(text, 1), "C");
    assert_eq!(typed_prefix(text, 5), "Cutie");
    assert_eq!(typed_prefix(text, text.len()), text);
    assert_eq!(typed_prefix("ä!", 2), "ä");
}
