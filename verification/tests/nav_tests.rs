use gentooplz::nav::{App, Key, HISTORY_LEN};
use gentooplz::view::View;

#[test]
fn views_cycle() {
    for v in View::ALL {
        assert_eq!(v.next().prev(), v);
        assert_eq!(v.prev().next(), v);
        assert_eq!(v.next().next().next(), v);
        assert_ne!(v.next(), v);
    }
    assert_eq!(View::Building.next(), View::Log);
    assert_eq!(View::Log.next(), View::System);
    assert_eq!(View::System.next(), View::Building);
    assert_eq!(View::Building.prev(), View::System);
}

#[test]
fn new_app() {
    let app: App<f32> = App::new();
    assert_eq!(app.selected, 0);
    assert_eq!(app.view, View::Building);
    assert!(!app.should_quit);
    assert!(app.cpu_history.is_empty());
}

#[test]
fn keys() {
    let mut app: App<f32> = App::new();
    app.handle_key(Key::Down, 3);
    app.handle_key(Key::Char('j'), 3);
    app.handle_key(Key::Down, 3);
    assert_eq!(app.selected, 2);
    app.handle_key(Key::Up, 3);
    app.handle_key(Key::Char('k'), 3);
    app.handle_key(Key::Up, 3);
    assert_eq!(app.selected, 0);
    app.handle_key(Key::Down, 0);
    assert_eq!(app.selected, 0);
    app.handle_key(Key::Tab, 3);
    assert_eq!(app.view, View::Log);
    app.handle_key(Key::Char('l'), 3);
    app.handle_key(Key::Right, 3);
    assert_eq!(app.view, View::Building);
    app.handle_key(Key::Left, 3);
    assert_eq!(app.view, View::System);
    app.handle_key(Key::BackTab, 3);
    app.handle_key(Key::Char('h'), 3);
    assert_eq!(app.view, View::Building);
    app.handle_key(Key::Char('x'), 3);
    app.handle_key(Key::Other, 3);
    assert!(!app.should_quit);
    app.handle_key(Key::Char('q'), 3);
    assert!(app.should_quit);
    let mut other: App<f32> = App::new();
    other.handle_key(Key::Esc, 0);
    assert!(other.should_quit);
}

#[test]
fn updates_clamp_and_keep_history() {
    let mut app: App<f32> = App::new();
    app.selected = 5;
    app.apply_update(1.0, 3);
    assert_eq!(app.selected, 2);
    app.apply_update(2.0, 0);
    assert_eq!(app.selected, 0);
    for i in 0..100 {
        app.apply_update(i as f32, 4);
    }
    assert_eq!(app.cpu_history.len(), HISTORY_LEN);
    assert_eq!(*app.cpu_history.back().unwrap(), 99.0);
    assert_eq!(*app.cpu_history.front().unwrap(), 40.0);
    assert_eq!(app.selected, 0);
}

#[test]
fn down_then_up_returns() {
    for len in 0..5usize {
        for sel in 0..len {
            let mut app: App<u8> = App::new();
            app.selected = sel;
            app.handle_key(Key::Down, len);
            assert!(app.selected < len);
            if sel + 1 < len {
                app.handle_key(Key::Up, len);
                assert_eq!(app.selected, sel);
            }
        }
    }
}
