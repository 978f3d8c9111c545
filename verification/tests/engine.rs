use duckforge::engine::{frame_actions, renderer_named, renderer_for, Config, FrameActions};
use duckforge::input::{Input, Key};
use duckforge::render3d::Renderer;

#[test]
fn default_config() {
    let c = Config::default();
    assert_eq!(c.title, "tiny_engine");
    assert_eq!((c.width, c.height, c.scale, c.target_fps), (320, 240, 3, 60));
    assert!(!c.show_fps);
    assert_eq!(c.renderer, Renderer::Auto);
}

#[test]
fn f3_toggles_the_counter_and_f12_takes_a_screenshot() {
    let mut input = Input::new();
    input.begin_frame(&[Key::F3]);
    assert_eq!(frame_actions(&input, false), FrameActions { show_fps: true, save_screenshot: false });
    assert_eq!(frame_actions(&input, true), FrameActions { show_fps: false, save_screenshot: false });
    input.begin_frame(&[Key::F3, Key::F12]);
    // F3 is still held: no toggle this frame.
    assert_eq!(frame_actions(&input, true), FrameActions { show_fps: true, save_screenshot: true });
}

#[test]
fn renderer_names_ignore_case() {
    assert_eq!(renderer_named("CPU"), Some(Renderer::Cpu));
    assert_eq!(renderer_named("Gpu"), Some(Renderer::Gpu));
    assert_eq!(renderer_named("auto"), Some(Renderer::Auto));
    assert_eq!(renderer_named("vulkan"), None);
    assert_eq!(renderer_for(&String::from("cpu")), Some(Renderer::Cpu));
    assert_eq!(renderer_for(&String::from("CPU")), None);
}
