use color_growth::color::blend_channel;
use color_growth::color::nudge_channel;
use color_growth::color::Color;

#[test]
fn blend_of_200_and_50_is_125() {
    assert_eq!(blend_channel(200, 50), 100 + 25 + 0);
    assert_eq!(blend_channel(200, 50), 125);
}

#[test]
fn blend_of_255_and_1_is_128() {
    assert_eq!(blend_channel(255, 1), 127 + 0 + 1);
    assert_eq!(blend_channel(255, 1), 128);
}

#[test]
fn blend_channel_is_the_rounded_down_mean_everywhere() {
    for a in 0..=255u16 {
        for b in 0..=255u16 {
            let m = blend_channel(a as u8, b as u8);
            assert_eq!(m as u16, (a + b) / 2);
            assert_eq!(m, (a as u8 >> 1) + (b as u8 >> 1) + (a as u8 & b as u8 & 1));
        }
    }
}

#[test]
fn blend_channel_keeps_extremes() {
    assert_eq!(blend_channel(0, 0), 0);
    assert_eq!(blend_channel(255, 255), 255);
    assert_eq!(blend_channel(0, 255), 127);
    assert_eq!(blend_channel(1, 0), 0);
    assert_eq!(blend_channel(1, 1), 1);
}

#[test]
fn blend_works_channel_by_channel() {
    let a = Color::new(200, 255, 0);
    let b = Color::new(50, 1, 7);
    assert_eq!(a.blend(b), Color { r: 125, g: 128, b: 3 });
    assert_eq!(a.blend(b), b.blend(a));
    assert_eq!(a.blend(a), a);
}

#[test]
fn nudge_channel_adds_inside_the_range() {
    assert_eq!(nudge_channel(100, 27), 127);
    assert_eq!(nudge_channel(100, -27), 73);
    assert_eq!(nudge_channel(100, 0), 100);
    assert_eq!(nudge_channel(0, 255), 255);
    assert_eq!(nudge_channel(255, -255), 0);
}

#[test]
fn nudge_channel_stops_at_the_ends() {
    assert_eq!(nudge_channel(250, 10), 255);
    assert_eq!(nudge_channel(5, -10), 0);
    assert_eq!(nudge_channel(255, i16::MAX), 255);
    assert_eq!(nudge_channel(0, i16::MIN), 0);
    assert_eq!(nudge_channel(255, 1), 255);
    assert_eq!(nudge_channel(0, -1), 0);
}

#[test]
fn shift_moves_each_channel_by_its_own_offset() {
    let c = Color::new(10, 128, 250);
    assert_eq!(c.shift(-20, 5, 20), Color { r: 0, g: 133, b: 255 });
    assert_eq!(c.shift(0, 0, 0), c);
}
