use glazewm::color::Color;
use glazewm::geometry::Rect;
use glazewm::layout::{new_node_data, new_window_props, Layout};
use glazewm::outline::{
    corner_radius, sync_focus_outline, CornerPreference, OutlineChange, OutlineShape, OutlineSight,
    OutlineState, OutlineStep, WindowEffects,
};
use glazewm::outline_bitmap::{
    draw_outline, pixel_count, premultiplied_pixel, rasterize, OutlineError,
};
use glazewm::tree::{ContainerKind, FullscreenStateConfig, WindowState};
use glazewm::wm_state::{BindingModeConfig, WmState};

#[test]
fn outline_radius_matches_preference_and_dpi() {
    let round = Some(CornerPreference::Round);
    let small = Some(CornerPreference::RoundSmall);
    let default = Some(CornerPreference::Default);
    assert_eq!(corner_radius(round, false, false, 96), 8);
    assert_eq!(corner_radius(round, false, false, 144), 12);
    assert_eq!(corner_radius(small, false, false, 192), 8);
    assert_eq!(corner_radius(default, false, true, 96), 8);
    assert_eq!(corner_radius(default, false, false, 96), 0);
    assert_eq!(corner_radius(Some(CornerPreference::DoNotRound), false, true, 96), 0);
    assert_eq!(corner_radius(round, true, true, 192), 0);
    assert_eq!(corner_radius(None, false, true, 96), 0);
}

#[test]
fn the_radius_is_rounded_to_the_nearest_pixel() {
    assert_eq!(corner_radius(Some(CornerPreference::RoundSmall), false, false, 120), 5);
    assert_eq!(corner_radius(Some(CornerPreference::RoundSmall), false, false, 107), 4);
    assert_eq!(corner_radius(Some(CornerPreference::RoundSmall), false, false, 108), 5);
    assert_eq!(corner_radius(Some(CornerPreference::Round), false, false, u32::MAX), 357913941);
}

#[test]
fn outline_pixels_have_smooth_symmetric_corners_and_empty_center() {
    let color = Color { r: 100, g: 160, b: 255, a: 255 };
    for radius in [4, 8, 12, 16] {
        let pixels = rasterize(100, 80, 3, radius, &color).unwrap();
        assert_eq!(pixels[40 * 100 + 50], 0);
        assert_eq!(pixels[50] >> 24, 255);
        assert_eq!(pixels[2 * 100 + 50] >> 24, 255);
        assert_eq!(pixels[3 * 100 + 50], 0);
        assert!(pixels.iter().any(|pixel| (1..255).contains(&(pixel >> 24))));
        for y in 0..80 {
            for x in 0..100 {
                assert_eq!(pixels[y * 100 + x], pixels[y * 100 + 99 - x]);
                assert_eq!(pixels[y * 100 + x], pixels[(79 - y) * 100 + x]);
            }
        }
    }
}

#[test]
fn outline_alpha_is_premultiplied_including_configured_opacity() {
    let color = Color { r: 255, g: 128, b: 64, a: 128 };
    let alpha = |coverage: f64| (f64::from(color.a) * coverage).round() as u8;
    assert_eq!(premultiplied_pixel(&color, alpha(0.5)), 0x4040_2010);
    assert_eq!(premultiplied_pixel(&color, alpha(0.0)), 0);
    let pixels = rasterize(100, 80, 3, 8, &color).unwrap();
    for pixel in pixels {
        let alpha = pixel >> 24;
        assert!(alpha <= 128);
        for shift in [0, 8, 16] {
            assert!((pixel >> shift) & 255 <= alpha);
        }
    }
}

#[test]
fn outline_respects_configured_thickness() {
    let color = Color { r: 255, g: 255, b: 255, a: 255 };
    for thickness in [2, 3, 6, 12] {
        let pixels = rasterize(100, 80, thickness, 8, &color).unwrap();
        for y in 0..40 {
            let expected = if y < usize::try_from(thickness).unwrap() { 255 } else { 0 };
            assert_eq!(pixels[y * 100 + 50] >> 24, expected);
        }
        for x in 0..50 {
            let expected = if x < usize::try_from(thickness).unwrap() { 255 } else { 0 };
            assert_eq!(pixels[40 * 100 + x] >> 24, expected);
        }
    }
}

#[test]
fn outline_square_and_tiny_windows_remain_valid() {
    let color = Color { r: 255, g: 255, b: 255, a: 255 };
    let pixels = rasterize(100, 80, 3, 0, &color).unwrap();
    assert_eq!(pixels[0], u32::MAX);
    assert_eq!(pixels[7999], u32::MAX);
    assert!(pixels.iter().all(|pixel| *pixel == 0 || *pixel == u32::MAX));
    assert_eq!(rasterize(1, 1, 10, 8, &color).unwrap(), vec![u32::MAX]);
    assert!(rasterize(0, 80, 3, 8, &color).is_err());
}

#[test]
fn dimensions_are_checked() {
    let color = Color { r: 1, g: 2, b: 3, a: 4 };
    assert_eq!(rasterize(0, 80, 3, 8, &color), Err(OutlineError::InvalidDimensions));
    assert_eq!(rasterize(80, -1, 3, 8, &color), Err(OutlineError::InvalidDimensions));
    let huge = rasterize(i32::MAX, i32::MAX, 3, 8, &color);
    assert!(matches!(
        huge,
        Err(OutlineError::CannotAllocate) | Err(OutlineError::DimensionsOverflow)
    ));
    assert_eq!(rasterize(2, 1, 1, 0, &color).unwrap().len(), 2);
    assert_eq!(
        draw_outline(Vec::new(), 9, 7, 2, 3, &color),
        rasterize(9, 7, 2, 3, &color).unwrap()
    );
}

fn coverage(x: f64, y: f64, width: f64, height: f64, radius: f64) -> f64 {
    let qx = (x - width / 2.0).abs() - (width / 2.0 - radius);
    let qy = (y - height / 2.0).abs() - (height / 2.0 - radius);
    let distance = qx.max(0.0).hypot(qy.max(0.0)) + qx.max(qy).min(0.0) - radius;
    (0.5 - distance).clamp(0.0, 1.0)
}

/// The opacity of a pixel by way of signed distances to both curves.
fn sampled(x: i32, y: i32, width: i32, height: i32, inset: i32, radius: i32, a: u8) -> u32 {
    let (px, py) = (f64::from(x) + 0.5, f64::from(y) + 0.5);
    let outer = coverage(px, py, f64::from(width), f64::from(height), f64::from(radius));
    let inner = if width > inset * 2 && height > inset * 2 {
        coverage(
            px - f64::from(inset),
            py - f64::from(inset),
            f64::from(width - inset * 2),
            f64::from(height - inset * 2),
            f64::from((radius - inset).max(0)),
        )
    } else {
        0.0
    };
    (f64::from(a) * (outer - inner).clamp(0.0, 1.0)).round() as u32
}

#[test]
fn opacities_follow_the_distance_from_the_curves() {
    for (width, height) in [(1, 1), (2, 9), (7, 5), (33, 20), (40, 41)] {
        for thickness in [0, 1, 2, 3, 5, 30] {
            for radius in [-4, 0, 1, 2, 5, 8, 16, 40] {
                for a in [0, 1, 77, 128, 254, 255] {
                    let color = Color { r: 255, g: 255, b: 255, a };
                    let pixels = rasterize(width, height, thickness, radius, &color).unwrap();
                    let corner = radius.max(0).min(width / 2).min(height / 2);
                    let inset = thickness.max(1).min((width.min(height) + 1) / 2);
                    for y in 0..height {
                        for x in 0..width {
                            let alpha = pixels[(y * width + x) as usize] >> 24;
                            let expected = sampled(x, y, width, height, inset, corner, a);
                            assert_eq!(alpha, expected, "{width}x{height} {thickness} {radius}");
                        }
                    }
                }
            }
        }
    }
}

fn outline() -> OutlineState {
    OutlineState::new(7, Color { r: 1, g: 2, b: 3, a: 255 }, 3)
}

#[test]
fn an_outline_is_drawn_once_and_moved_without_drawing() {
    let mut state = outline();
    let frame = Rect::from_xy(10, 20, 300, 200);
    let shape = OutlineShape { width: 300, height: 200, radius: 8 };
    let sight = OutlineSight { frame: Some(frame), radius: 8, outline: None };
    assert_eq!(state.track(&sight), OutlineStep::Draw(shape));
    assert_eq!(state.drawn(&frame, shape, true), OutlineStep::Place(frame));
    let placed = OutlineSight { outline: Some(frame), ..sight };
    assert_eq!(state.track(&placed), OutlineStep::Keep);
    let moved = Rect::from_xy(50, 20, 300, 200);
    assert_eq!(
        state.track(&OutlineSight { frame: Some(moved), ..placed }),
        OutlineStep::Place(moved)
    );
    let resized = Rect::from_xy(50, 20, 310, 200);
    assert_eq!(
        state.track(&OutlineSight { frame: Some(resized), ..placed }),
        OutlineStep::Draw(OutlineShape { width: 310, ..shape })
    );
    assert_eq!(
        state.track(&OutlineSight { radius: 0, ..placed }),
        OutlineStep::Draw(OutlineShape { radius: 0, ..shape })
    );
}

#[test]
fn an_outline_is_hidden_with_its_window() {
    let mut state = outline();
    let frame = Rect::from_xy(10, 20, 300, 200);
    let shape = OutlineShape { width: 300, height: 200, radius: 8 };
    let sight = OutlineSight { frame: None, radius: 8, outline: Some(frame) };
    assert_eq!(state.track(&sight), OutlineStep::Hide);
    let empty = Rect::from_xy(10, 20, 0, 200);
    assert_eq!(state.track(&OutlineSight { frame: Some(empty), ..sight }), OutlineStep::Hide);
    assert_eq!(state.drawn(&frame, shape, false), OutlineStep::Hide);
    assert_eq!(state.last_shape, None);
}

#[test]
fn an_updated_outline_is_drawn_again() {
    let mut state = outline();
    let frame = Rect::from_xy(10, 20, 300, 200);
    let shape = OutlineShape { width: 300, height: 200, radius: 8 };
    state.drawn(&frame, shape, true);
    state.update(7, Color { r: 9, g: 2, b: 3, a: 255 }, 5);
    assert_eq!(state.width, 5);
    let sight = OutlineSight { frame: Some(frame), radius: 8, outline: Some(frame) };
    assert_eq!(state.track(&sight), OutlineStep::Draw(shape));
}

fn effects() -> WindowEffects {
    WindowEffects {
        focused_border_enabled: true,
        focused_border_width: 3,
        focused_color: Color { r: 10, g: 20, b: 30, a: 255 },
        resize_border_color: Some(Color { r: 255, g: 255, b: 0, a: 255 }),
    }
}

fn mode(name: &str) -> BindingModeConfig {
    BindingModeConfig { name: name.to_string() }
}

#[test]
fn resize_border_color_restores_normal_color_and_supports_legacy_config() {
    let effects = effects();
    let color = effects.focused_border_color(&vec![mode("resize")]);
    assert_eq!((color.r, color.g, color.b), (255, 255, 0));
    assert_eq!(effects.focused_border_color(&vec![]), effects.focused_color);
    assert_eq!(effects.focused_border_color(&vec![mode("other")]), effects.focused_color);
    let legacy = WindowEffects { resize_border_color: None, ..effects };
    assert_eq!(legacy.focused_border_color(&vec![mode("resize")]), legacy.focused_color);
}

fn window_state(state: WindowState) -> (WmState, usize) {
    let mut wm = WmState::new();
    let mut data = new_node_data(ContainerKind::TilingWindow);
    data.window = new_window_props(state);
    let window = wm.layout.add_container(data);
    (wm, window)
}

#[test]
fn only_focused_windows_are_outlined() {
    let effects = effects();
    let (mut state, window) = window_state(WindowState::Tiling);
    let normal = effects.focused_color;
    assert_eq!(
        sync_focus_outline(window, &state, &effects, false),
        OutlineChange::Create(normal, 3)
    );
    assert_eq!(
        sync_focus_outline(window, &state, &effects, true),
        OutlineChange::Update(normal, 3)
    );
    assert_eq!(sync_focus_outline(0, &state, &effects, true), OutlineChange::Remove);
    let thin = WindowEffects { focused_border_width: 1, ..effects };
    assert_eq!(sync_focus_outline(window, &state, &thin, true), OutlineChange::Remove);
    let off = WindowEffects { focused_border_enabled: false, ..effects };
    assert_eq!(sync_focus_outline(window, &state, &off, true), OutlineChange::Remove);
    state.binding_modes.push(mode("resize"));
    assert_eq!(
        sync_focus_outline(window, &state, &effects, true),
        OutlineChange::Update(effects.resize_border_color.unwrap(), 3)
    );
    state.is_paused = true;
    assert_eq!(sync_focus_outline(window, &state, &effects, true), OutlineChange::Remove);
    let full = FullscreenStateConfig { maximized: true, shown_on_top: false };
    let (state, window) = window_state(WindowState::Fullscreen(full));
    assert_eq!(sync_focus_outline(window, &state, &effects, true), OutlineChange::Remove);
    assert_eq!(Layout::new().len(), 1);
}

#[test]
fn an_outline_has_a_pixel_for_every_place() {
    assert_eq!(pixel_count(100, 80), Ok(8000));
    assert_eq!(pixel_count(1, i32::MAX), Ok(2147483647));
    assert_eq!(pixel_count(0, 80), Err(OutlineError::InvalidDimensions));
    assert_eq!(pixel_count(80, -1), Err(OutlineError::InvalidDimensions));
}
