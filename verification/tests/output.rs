use cvvc::output::{ConsoleOutputService, OutputKind, OutputMessage};

#[test]
fn console_output_service_select_returns_plain_if_mode_is_plain_and_colour_is_set() {
    let test_input = OutputMessage {
        plain: "the expected message",
        colour: Some("fail"),
    };
    let test_object = ConsoleOutputService::new(OutputKind::Plain, false);

    let test_output = test_object.select(&test_input);

    assert_eq!("the expected message", test_output);
}

#[test]
fn console_output_service_select_returns_plain_if_mode_is_plain_and_colour_is_not_set() {
    let test_input = OutputMessage {
        plain: "the expected message",
        colour: None,
    };
    let test_object = ConsoleOutputService::new(OutputKind::Plain, false);

    let test_output = test_object.select(&test_input);

    assert_eq!("the expected message", test_output);
}

#[test]
fn console_output_service_select_returns_colour_if_mode_is_colour_and_colour_is_set() {
    let test_input = OutputMessage {
        plain: "fail",
        colour: Some("the expected message"),
    };
    let test_object = ConsoleOutputService::new(OutputKind::Colour, false);

    let test_output = test_object.select(&test_input);

    assert_eq!("the expected message", test_output);
}

#[test]
fn console_output_service_select_returns_plain_if_mode_is_colour_and_colour_is_not_set() {
    let test_input = OutputMessage {
        plain: "the expected message",
        colour: None,
    };
    let test_object = ConsoleOutputService::new(OutputKind::Colour, false);

    let test_output = test_object.select(&test_input);

    assert_eq!("the expected message", test_output);
}
