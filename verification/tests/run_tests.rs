use mtree::config::Config;
use mtree::render::Next;
use mtree::run::{run, Course};

#[test]
fn message_is_printed_as_it_is() {
    let course = run(Config::new_message("help!".to_string()));
    assert!(matches!(course, Course::Say(ref text) if text == "help!"));
}

#[test]
fn error_is_printed_behind_its_label() {
    let course = run(Config::new_error("The tag `-X` is invalid.".to_string()));
    assert!(matches!(course, Course::Say(ref text) if text == "Error: The tag `-X` is invalid."));
}

#[test]
fn rendering_configuration_begins_a_rendering() {
    let Course::Render(renderer, step) = run(Config::new()) else {
        panic!("a rendering was expected");
    };
    assert_eq!(step.lines, ["."]);
    assert!(matches!(step.next, Next::List(ref path) if path.is_empty()));
    assert_eq!(renderer.count(), 0);
}
