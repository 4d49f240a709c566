use commenter::stomp::{SendClientFrame, StompClientFrame};

fn encode_stomp_frame(
    command: &str,
    headers: Vec<(&str, &str)>,
    body: &str,
    optional_carraige_return: bool,
) -> String {
    let eol = if optional_carraige_return { "\r\n" } else { "\n" };
    let mut encoded_headers = String::new();
    for (name, value) in headers {
        encoded_headers.push_str(eol);
        encoded_headers.push_str(name);
        encoded_headers.push(':');
        encoded_headers.push_str(value);
    }
    format!("{command}{encoded_headers}{eol}{eol}{body}\0")
}

fn encode_stomp_frame_command_only(command: &str, optional_carraige_return: bool) -> String {
    encode_stomp_frame(command, Vec::new(), "", optional_carraige_return)
}

fn encode_send_stomp_frame<'a>(
    action: &'a str,
    mut headers: Vec<(&'a str, &'a str)>,
    body: &str,
    optional_carraige_return: bool,
) -> String {
    headers.push(("action", action));
    encode_stomp_frame("SEND", headers, body, optional_carraige_return)
}

fn test_stomp_client_frame_parsing(input: String, output: StompClientFrame) {
    let result = StompClientFrame::new(input.as_bytes());
    assert_eq!(result.unwrap(), output);
}

fn test_stomp_client_frame_disconnection_message_parsing(optional_carraige_return: bool) {
    let input = encode_stomp_frame_command_only("DISCONNECT", optional_carraige_return);
    test_stomp_client_frame_parsing(input, StompClientFrame::DISCONNECT);
}

#[test]
fn stomp_client_frame_should_parse_disconnection_message_with_new_line_as_eol() {
    test_stomp_client_frame_disconnection_message_parsing(false);
}

#[test]
fn stomp_client_frame_should_parse_disconnection_message_with_carriage_return_included_in_eol() {
    test_stomp_client_frame_disconnection_message_parsing(true)
}

fn test_stomp_client_frame_subscribe_message_parsing(
    destination: &str,
    id: &str,
    optional_carraige_return: bool,
) {
    let headers = vec![("destination", destination), ("id", id)];
    let input = encode_stomp_frame("SUBSCRIBE", headers, "", optional_carraige_return);

    test_stomp_client_frame_parsing(
        input,
        StompClientFrame::SUBSCRIBE {
            destination: destination.to_owned(),
            id: id.to_owned(),
        },
    );
}

#[test]
fn stomp_client_frame_should_parse_subscribe_message_with_new_line_as_eol() {
    test_stomp_client_frame_subscribe_message_parsing("topic1", "sub-1", false)
}

#[test]
fn stomp_client_frame_should_parse_subscribe_message_with_carriage_return_included_in_eol() {
    test_stomp_client_frame_subscribe_message_parsing("topic1", "sub-1", true)
}

fn test_stomp_client_frame_unsubscribe_message_parsing(id: &str, optional_carraige_return: bool) {
    let input = encode_stomp_frame(
        "UNSUBSCRIBE",
        vec![("id", id)],
        "",
        optional_carraige_return,
    );

    test_stomp_client_frame_parsing(input, StompClientFrame::UNSUBSCRIBE(id.to_owned()))
}

#[test]
fn stomp_client_frame_should_parse_unsubscribe_message_with_new_line_as_eol() {
    test_stomp_client_frame_unsubscribe_message_parsing("sub-1", false)
}

#[test]
fn stomp_client_frame_should_parse_unsubscribe_message_with_carriage_return_included_in_eol() {
    test_stomp_client_frame_unsubscribe_message_parsing("sub-1", true)
}

fn test_stomp_client_frame_send_parsing(input: String, output: SendClientFrame) {
    test_stomp_client_frame_parsing(input, StompClientFrame::SEND(output));
}

fn test_stomp_client_frame_send_create_message_parsing(
    destination: &str,
    body: &str,
    optional_carraige_return: bool,
) {
    let headers = vec![("destination", destination)];
    let input = encode_send_stomp_frame("CREATE", headers, body, optional_carraige_return);
    test_stomp_client_frame_send_parsing(
        input,
        SendClientFrame::CREATE {
            destination: destination.to_owned(),
            text: body.to_owned(),
        },
    )
}

#[test]
fn stomp_client_frame_should_parse_send_create_message_with_new_line_as_eol() {
    test_stomp_client_frame_send_create_message_parsing("destination_1", "test body", false)
}

#[test]
fn stomp_client_frame_should_parse_send_create_message_with_carriage_return_included_in_eol() {
    test_stomp_client_frame_send_create_message_parsing("destination_2", "test body 2", true)
}

fn test_stomp_client_frame_send_update_message_parsing(
    id: &str,
    body: &str,
    optional_carraige_return: bool,
) {
    let headers = vec![("id", id)];
    let input = encode_send_stomp_frame("UPDATE", headers, body, optional_carraige_return);
    test_stomp_client_frame_send_parsing(
        input,
        SendClientFrame::UPDATE {
            id: id.to_owned(),
            text: body.to_owned(),
        },
    )
}

#[test]
fn stomp_client_frame_should_parse_send_update_message_with_new_line_as_eol() {
    test_stomp_client_frame_send_update_message_parsing("101", "test body", false)
}

#[test]
fn stomp_client_frame_should_parse_send_update_message_with_carriage_return_included_in_eol() {
    test_stomp_client_frame_send_update_message_parsing("303", "test body 2", true)
}

fn test_stomp_client_frame_send_delete_message_parsing(id: &str, optional_carraige_return: bool) {
    let headers = vec![("id", id)];
    let input = encode_send_stomp_frame("DELETE", headers, "", optional_carraige_return);
    test_stomp_client_frame_send_parsing(input, SendClientFrame::DELETE { id: id.to_owned() })
}

#[test]
fn stomp_client_frame_should_parse_send_delete_message_with_new_line_as_eol() {
    test_stomp_client_frame_send_delete_message_parsing("101", false)
}

#[test]
fn stomp_client_frame_should_parse_send_delete_message_with_carriage_return_included_in_eol() {
    test_stomp_client_frame_send_delete_message_parsing("303", true)
}
