use gentooplz::view::View;

#[test]
fn view_labels() {
    assert_eq!(View::Building.label(), "Build");
    assert_eq!(View::Log.label(), "Log");
    assert_eq!(View::System.label(), "Resources");
}
