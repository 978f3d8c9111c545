//! The engine's settings, and the decisions its game loop makes each frame.
//!
//! The loop itself (the window, the clock, the screen) lives with the
//! program that opens the window; what it decides from the keyboard is here.
use vstd::prelude::*;
use crate::input::{Input, Key, pressed};
use crate::render3d::Renderer;

verus! {

/// Settings for the window and the game loop.
#[derive(Debug, Clone)]
pub struct Config {
    /// Text in the window's title bar.
    pub title: String,
    /// Width of the canvas in pixels.
    pub width: usize,
    /// Height of the canvas in pixels.
    pub height: usize,
    /// The window starts `scale` times bigger than the canvas, for a chunky
    /// pixel-art look. The window can also be resized freely.
    pub scale: usize,
    /// How many frames per second the loop aims for.
    pub target_fps: usize,
    /// Show a frames-per-second counter in the corner. F3 toggles it while playing.
    pub show_fps: bool,
    /// What draws 3D: the graphics card if possible (`Auto`), or always the
    /// CPU. The `TINY_ENGINE_RENDERER` environment variable overrides this.
    pub renderer: Renderer,
}

impl Default for Config {
    /// A 320x240 canvas in a window 3 times bigger, at 60 frames per second.
    fn default() -> (config: Self)
        ensures
            config.title@ == "tiny_engine"@,
            config.width == 320,
            config.height == 240,
            config.scale == 3,
            config.target_fps == 60,
            !config.show_fps,
            config.renderer == Renderer::Auto,
    {
        Config {
            title: "tiny_engine".to_owned(),
            width: 320,
            height: 240,
            scale: 3,
            target_fps: 60,
            show_fps: false,
            renderer: Renderer::Auto,
        }
    }
}

/// What the game loop does once the game has drawn a frame.
#[derive(Debug, Clone, Copy, PartialEq, Eq, Structural)]
pub struct FrameActions {
    /// Whether the frames-per-second counter is shown from now on (and
    /// drawn on this frame).
    pub show_fps: bool,
    /// Whether to save a screenshot of this frame.
    pub save_screenshot: bool,
}

/// Two keys work in every game: **F3** shows or hides the FPS counter, and
/// **F12** saves a screenshot. Given the keyboard this frame and whether
/// the counter was shown, says what to do.
pub fn frame_actions(input: &Input, show_fps: bool) -> (actions: FrameActions)
    ensures
        actions.show_fps == (show_fps != pressed(input@, Key::F3)),
        actions.save_screenshot == pressed(input@, Key::F12),
{
    let mut show = show_fps;
    if input.was_pressed(Key::F3) {
        show = !show;
    }
    FrameActions { show_fps: show, save_screenshot: input.was_pressed(Key::F12) }
}

/// What `str::to_lowercase` makes of a string: the characters' lowercase
/// forms by Unicode's rules.
pub uninterp spec fn lowercase(s: Seq<char>) -> Seq<char>;

/// `str::to_lowercase`: the string with every character in lowercase. Its
/// result depends only on the string.
#[verifier::external_body]
fn to_lowercase(s: &str) -> (lower: String)
    ensures
        lower@ == lowercase(s@),
{
    s.to_lowercase()
}

/// The renderer a lowercase name stands for: `cpu`, `gpu` or `auto`;
/// `None` for any other name.
pub fn renderer_for(lower: &String) -> (r: Option<Renderer>)
    ensures
        r == renderer_spec(lower@),
{
    if *lower == "cpu".to_owned() {
        Some(Renderer::Cpu)
    } else if *lower == "gpu".to_owned() {
        Some(Renderer::Gpu)
    } else if *lower == "auto".to_owned() {
        Some(Renderer::Auto)
    } else {
        None
    }
}

/// The renderer a lowercase name stands for.
pub open spec fn renderer_spec(lower: Seq<char>) -> Option<Renderer> {
    if lower == "cpu"@ {
        Some(Renderer::Cpu)
    } else if lower == "gpu"@ {
        Some(Renderer::Gpu)
    } else if lower == "auto"@ {
        Some(Renderer::Auto)
    } else {
        None
    }
}

/// The renderer a name asks for, in any mix of upper and lower case:
/// `cpu`, `gpu` or `auto`; `None` for any other name.
pub fn renderer_named(name: &str) -> (r: Option<Renderer>)
    ensures
        r == renderer_spec(lowercase(name@)),
{
    let lower = to_lowercase(name);
    renderer_for(&lower)
}

} // verus!
