use duckforge::input::{Input, Key};

#[test]
fn pressed_is_true_for_one_frame_only() {
    let mut input = Input::new();

    input.begin_frame(&[Key::Space]);
    assert!(input.is_down(Key::Space));
    assert!(input.was_pressed(Key::Space));

    input.begin_frame(&[Key::Space]);
    assert!(input.is_down(Key::Space));
    assert!(!input.was_pressed(Key::Space));

    input.begin_frame(&[]);
    assert!(!input.is_down(Key::Space));
    assert!(input.was_released(Key::Space));
}

#[test]
fn released_only_once() {
    let mut input = Input::default();
    input.begin_frame(&[Key::A, Key::A, Key::F12]);
    assert!(input.is_down(Key::A) && input.is_down(Key::F12));
    assert!(!input.was_released(Key::A));
    input.begin_frame(&[Key::F12]);
    assert!(input.was_released(Key::A));
    assert!(!input.was_pressed(Key::F12));
    input.begin_frame(&[Key::F12]);
    assert!(!input.was_released(Key::A));
    assert!(!input.is_down(Key::Escape));
}
