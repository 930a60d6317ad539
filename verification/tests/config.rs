use cs2_bot::config::{
    default_height, default_smooth_method, default_tick_rate, default_width, GeneralConfig,
    ScreenConfig, SmoothMethod,
};
use cs2_bot::input_sim::{direction_key, MoveDirection};

#[test]
fn defaults() {
    assert_eq!(default_tick_rate(), 60);
    assert_eq!(default_width(), 384);
    assert_eq!(default_height(), 288);
    assert_eq!(default_smooth_method(), "catmull");
    let screen = ScreenConfig { width: default_width(), height: default_height() };
    assert_eq!((screen.width, screen.height), (384, 288));
    let general = GeneralConfig { tick_rate: default_tick_rate(), dry_run: false };
    assert_eq!(general.tick_rate, 60);
}

#[test]
fn smoothing_method_names() {
    assert_eq!(SmoothMethod::from_name("funnel"), SmoothMethod::Funnel);
    assert_eq!(SmoothMethod::from_name("catmull"), SmoothMethod::CatmullRom);
    assert_eq!(SmoothMethod::from_name(&default_smooth_method()), SmoothMethod::CatmullRom);
    assert_eq!(SmoothMethod::from_name("Funnel"), SmoothMethod::CatmullRom);
    assert_eq!(SmoothMethod::from_name(""), SmoothMethod::CatmullRom);
}

#[test]
fn wasd_keys() {
    assert_eq!(direction_key(MoveDirection::Forward), 'w');
    assert_eq!(direction_key(MoveDirection::Backward), 's');
    assert_eq!(direction_key(MoveDirection::Left), 'a');
    assert_eq!(direction_key(MoveDirection::Right), 'd');
}
