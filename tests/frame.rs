use square_demo::frame::{
    background_color, fill_color, frame_interval_nanos, is_quit_event, square_for_elapsed,
    square_rect, texture_outcome, texture_plan, InputEvent, Key, Rgb, TextureColor,
    TextureOutcome, TexturePlan, TEXTURE_SIZE,
};

#[test]
fn green_texture_is_pure_green() {
    assert_eq!(fill_color(TextureColor::Green), Rgb { r: 0, g: 255, b: 0 });
}

#[test]
fn blue_texture_is_pure_blue() {
    assert_eq!(fill_color(TextureColor::Blue), Rgb { r: 0, g: 0, b: 255 });
}

#[test]
fn background_is_red() {
    assert_eq!(background_color(), Rgb { r: 255, g: 0, b: 0 });
}

#[test]
fn square_alternates_every_second() {
    assert_eq!(square_for_elapsed(0), TextureColor::Green);
    assert_eq!(square_for_elapsed(1), TextureColor::Blue);
    assert_eq!(square_for_elapsed(2), TextureColor::Green);
    assert_eq!(square_for_elapsed(7), TextureColor::Blue);
    assert_eq!(square_for_elapsed(u64::MAX), TextureColor::Blue);
    assert_eq!(square_for_elapsed(u64::MAX - 1), TextureColor::Green);
}

#[test]
fn frame_interval_is_a_sixtieth_of_a_second() {
    assert_eq!(frame_interval_nanos(), 16_666_666);
}

#[test]
fn square_sits_in_the_top_left_corner() {
    assert_eq!(square_rect(), (0, 0, 32, 32));
    assert_eq!(TEXTURE_SIZE, 32);
}

#[test]
fn quit_and_escape_end_the_loop() {
    assert!(is_quit_event(InputEvent::Quit));
    assert!(is_quit_event(InputEvent::KeyDown(Some(Key::Escape))));
    assert!(!is_quit_event(InputEvent::KeyDown(Some(Key::Other))));
    assert!(!is_quit_event(InputEvent::KeyDown(None)));
    assert!(!is_quit_event(InputEvent::Other));
}

#[test]
fn texture_plan_asks_for_a_filled_square() {
    assert_eq!(
        texture_plan(TextureColor::Green, TEXTURE_SIZE),
        TexturePlan { width: 32, height: 32, fill: Rgb { r: 0, g: 255, b: 0 } }
    );
    assert_eq!(
        texture_plan(TextureColor::Blue, 7),
        TexturePlan { width: 7, height: 7, fill: Rgb { r: 0, g: 0, b: 255 } }
    );
    assert_eq!(
        texture_plan(TextureColor::Blue, 0),
        TexturePlan { width: 0, height: 0, fill: Rgb { r: 0, g: 0, b: 255 } }
    );
}

#[test]
fn texture_outcome_follows_creation_and_filling() {
    assert_eq!(texture_outcome(false, false), TextureOutcome::Unavailable);
    assert_eq!(texture_outcome(false, true), TextureOutcome::Unavailable);
    assert_eq!(texture_outcome(true, false), TextureOutcome::FillFailed);
    assert_eq!(texture_outcome(true, true), TextureOutcome::Ready);
}
