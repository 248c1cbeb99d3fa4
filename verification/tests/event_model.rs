use copy_stack::{Data, Event, Item, StoreError};

fn text_event(text: &str) -> Event {
    let mut event = Event::new();
    event.new_item();
    event.add_data("public.utf8-plain-text".to_string(), text.as_bytes().to_vec());
    event
}

#[test]
fn new_event_has_no_items() {
    let event = Event::new();
    assert_eq!(event.items.len(), 0);
}

#[test]
fn new_item_appends_an_empty_item() {
    let mut event = Event::new();
    event.new_item();
    event.new_item();
    assert_eq!(event.items.len(), 2);
    assert_eq!(event.items[0].data_list.len(), 0);
    assert_eq!(event.items[1].data_list.len(), 0);
}

#[test]
fn add_data_goes_to_the_last_item() {
    let mut event = Event::new();
    event.new_item();
    event.add_data("a".to_string(), vec![1]);
    event.new_item();
    event.add_data("b".to_string(), vec![2, 3]);
    event.add_data("c".to_string(), vec![]);
    assert_eq!(event.items.len(), 2);
    assert_eq!(event.items[0].data_list.len(), 1);
    assert_eq!(event.items[1].data_list.len(), 2);
    assert_eq!(event.items[0].data_list[0].type_tag, "a");
    assert_eq!(event.items[0].data_list[0].data, vec![1]);
    assert_eq!(event.items[1].data_list[0].type_tag, "b");
    assert_eq!(event.items[1].data_list[0].data, vec![2, 3]);
    assert_eq!(event.items[1].data_list[1].type_tag, "c");
    assert_eq!(event.items[1].data_list[1].data, Vec::<u8>::new());
}

#[test]
fn add_data_without_an_item_changes_nothing() {
    let mut event = Event::new();
    event.add_data("a".to_string(), vec![1, 2, 3]);
    assert_eq!(event.items.len(), 0);
}

#[test]
fn item_and_data_are_built_by_hand() {
    let mut item = Item::new();
    item.add_data(Data::new("x".to_string(), vec![9]));
    let mut event = Event::new();
    event.push_item(item);
    assert_eq!(event.to_json(), "{\"items\":[{\"data_list\":[{\"type\":\"x\",\"data\":[9]}]}]}");
}

#[test]
fn a_clone_is_equal_and_independent() {
    let event = text_event("Hello");
    let mut copy = event.clone();
    assert_eq!(copy.to_json(), event.to_json());
    copy.add_data("more".to_string(), vec![0]);
    assert_ne!(copy.to_json(), event.to_json());
    assert_eq!(event.items[0].data_list.len(), 1);
}

#[test]
fn empty_event_text() {
    assert_eq!(Event::new().to_json(), "{\"items\":[]}");
}

#[test]
fn empty_item_text() {
    let mut event = Event::new();
    event.new_item();
    assert_eq!(event.to_json(), "{\"items\":[{\"data_list\":[]}]}");
}

#[test]
fn text_event_text() {
    assert_eq!(
        text_event("Hello").to_json(),
        "{\"items\":[{\"data_list\":[{\"type\":\"public.utf8-plain-text\",\"data\":[72,101,108,108,111]}]}]}"
    );
}

#[test]
fn bytes_are_written_in_decimal_without_leading_zeros() {
    let mut event = Event::new();
    event.new_item();
    event.add_data("b".to_string(), vec![0, 7, 10, 99, 100, 255]);
    assert_eq!(
        event.to_json(),
        "{\"items\":[{\"data_list\":[{\"type\":\"b\",\"data\":[0,7,10,99,100,255]}]}]}"
    );
}

#[test]
fn tags_are_escaped() {
    let mut event = Event::new();
    event.new_item();
    event.add_data("a\"b\\c\nd\re\tf\u{8}g\u{c}h\u{1}i\u{1f}j\u{7f}é".to_string(), vec![]);
    assert_eq!(
        event.to_json(),
        "{\"items\":[{\"data_list\":[{\"type\":\"a\\\"b\\\\c\\nd\\re\\tf\\bg\\fh\\u0001i\\u001fj\u{7f}é\",\"data\":[]}]}]}"
    );
}

#[test]
fn several_items_and_entries_are_separated_by_commas() {
    let mut event = Event::new();
    event.new_item();
    event.add_data("a".to_string(), vec![1]);
    event.add_data("b".to_string(), vec![]);
    event.new_item();
    event.new_item();
    event.add_data("c".to_string(), vec![2, 3]);
    assert_eq!(
        event.to_json(),
        "{\"items\":[{\"data_list\":[{\"type\":\"a\",\"data\":[1]},{\"type\":\"b\",\"data\":[]}]},{\"data_list\":[]},{\"data_list\":[{\"type\":\"c\",\"data\":[2,3]}]}]}"
    );
}

fn round_trip(event: &Event) {
    let text = event.to_json();
    match Event::from_json(&text) {
        Ok(read) => {
            assert_eq!(read.items.len(), event.items.len());
            for (a, b) in read.items.iter().zip(event.items.iter()) {
                assert_eq!(a.data_list.len(), b.data_list.len());
                for (x, y) in a.data_list.iter().zip(b.data_list.iter()) {
                    assert_eq!(x.type_tag, y.type_tag);
                    assert_eq!(x.data, y.data);
                }
            }
            assert_eq!(read.to_json(), text);
        }
        Err(err) => panic!("the text of an event was refused: {}", err.message()),
    }
}

#[test]
fn round_trip_of_the_empty_event() {
    round_trip(&Event::new());
}

#[test]
fn round_trip_of_empty_items() {
    let mut event = Event::new();
    event.new_item();
    event.new_item();
    round_trip(&event);
}

#[test]
fn round_trip_of_binary_payloads() {
    let mut event = Event::new();
    event.new_item();
    event.add_data("public.png".to_string(), (0..=255u8).collect());
    event.add_data("public.utf8-plain-text".to_string(), vec![0xff, 0xfe, 0x00, 0x80]);
    event.add_data("".to_string(), vec![]);
    event.new_item();
    event.add_data("x".to_string(), vec![0]);
    round_trip(&event);
}

#[test]
fn round_trip_of_unusual_tags() {
    let mut event = Event::new();
    event.new_item();
    let mut every_control = String::new();
    for code in 0u8..0x20 {
        every_control.push(code as char);
    }
    event.add_data(every_control, vec![1]);
    event.add_data("quote\" backslash\\ slash/ del\u{7f}".to_string(), vec![2]);
    event.add_data("日本語 🙂 é".to_string(), vec![3]);
    event.add_data("\\u0041 \\n ]},{".to_string(), vec![4]);
    round_trip(&event);
}

#[test]
fn from_json_reads_an_event() {
    let text = "{\"items\":[{\"data_list\":[{\"type\":\"t\\n\",\"data\":[1,20,255]}]},{\"data_list\":[]}]}";
    let event = Event::from_json(text).unwrap();
    assert_eq!(event.items.len(), 2);
    assert_eq!(event.items[0].data_list[0].type_tag, "t\n");
    assert_eq!(event.items[0].data_list[0].data, vec![1, 20, 255]);
    assert_eq!(event.items[1].data_list.len(), 0);
}

fn refused(text: &str) {
    match Event::from_json(text) {
        Ok(_) => panic!("accepted: {}", text),
        Err(err) => assert_eq!(err, StoreError::Encoding),
    }
}

#[test]
fn from_json_refuses_what_is_no_event() {
    refused("");
    refused("{}");
    refused("null");
    refused("{\"items\":[]");
    refused("{\"items\":[]}x");
    refused("{\"items\":[]} ");
    refused(" {\"items\":[]}");
    refused("{\"items\": []}");
    refused("{\"items\":[,]}");
    refused("{\"items\":[{\"data_list\":[]},]}");
    refused("{\"items\":[{\"data_list\":[{\"data\":[],\"type\":\"a\"}]}]}");
    refused("{\"item\":[]}");
}

#[test]
fn from_json_refuses_bytes_that_to_json_never_writes() {
    let wrap = |bytes: &str| format!("{{\"items\":[{{\"data_list\":[{{\"type\":\"a\",\"data\":[{}]}}]}}]}}", bytes);
    assert!(Event::from_json(&wrap("255")).is_ok());
    assert!(Event::from_json(&wrap("0,0")).is_ok());
    refused(&wrap("256"));
    refused(&wrap("1000"));
    refused(&wrap("01"));
    refused(&wrap("00"));
    refused(&wrap("-1"));
    refused(&wrap("1,"));
    refused(&wrap("1 ,2"));
    refused(&wrap("1.0"));
    refused(&wrap("a"));
}

#[test]
fn from_json_refuses_tags_that_to_json_never_writes() {
    let wrap = |tag: &str| format!("{{\"items\":[{{\"data_list\":[{{\"type\":\"{}\",\"data\":[]}}]}}]}}", tag);
    assert!(Event::from_json(&wrap("\\u0001")).is_ok());
    assert!(Event::from_json(&wrap("\\u001f")).is_ok());
    refused(&wrap("\\u001F"));
    refused(&wrap("\\u0041"));
    refused(&wrap("\\u000a"));
    refused(&wrap("\\u0020"));
    refused(&wrap("\\/"));
    refused(&wrap("\\x"));
    refused(&wrap("\n"));
    refused(&wrap("\u{1}"));
    refused(&wrap("\\"));
    refused(&wrap("a\"b"));
}

#[test]
fn the_text_is_what_serde_json_writes_for_the_same_value() {
    let mut event = Event::new();
    event.new_item();
    event.add_data("a\"b\\c\n\u{1}é".to_string(), vec![0, 128, 255]);
    event.new_item();
    let text = event.to_json();

    let mut entry = serde_json::Map::new();
    entry.insert("type".to_string(), serde_json::Value::String("a\"b\\c\n\u{1}é".to_string()));
    entry.insert(
        "data".to_string(),
        serde_json::Value::Array(vec![
            serde_json::Value::from(0u8),
            serde_json::Value::from(128u8),
            serde_json::Value::from(255u8),
        ]),
    );
    let mut first = serde_json::Map::new();
    first.insert("data_list".to_string(), serde_json::Value::Array(vec![serde_json::Value::Object(entry)]));
    let mut second = serde_json::Map::new();
    second.insert("data_list".to_string(), serde_json::Value::Array(vec![]));
    let mut root = serde_json::Map::new();
    root.insert(
        "items".to_string(),
        serde_json::Value::Array(vec![serde_json::Value::Object(first), serde_json::Value::Object(second)]),
    );
    let expected = serde_json::Value::Object(root);

    let parsed: serde_json::Value = serde_json::from_str(&text).unwrap();
    assert_eq!(parsed, expected);
}

#[test]
fn error_messages() {
    assert_eq!(StoreError::Io.message(), "storage unavailable");
    assert_eq!(StoreError::Encoding.message(), "event cannot be encoded or decoded");
    assert_eq!(StoreError::CorruptRecord.message(), "stored record is corrupt");
    assert_eq!(StoreError::Constraint.message(), "uniqueness constraint violated");
}

#[test]
fn tags_are_quoted_as_serde_json_quotes_strings() {
    let mut every_control = String::new();
    for code in 0u8..=0x7f {
        every_control.push(code as char);
    }
    for tag in [every_control.as_str(), "", "plain", "a\"b\\c", "日本語 🙂 é", "\u{80}\u{ff}\u{2028}\u{2029}\u{feff}"] {
        let mut event = Event::new();
        event.new_item();
        event.add_data(tag.to_string(), vec![]);
        let quoted = serde_json::to_string(&serde_json::Value::String(tag.to_string())).unwrap();
        assert_eq!(
            event.to_json(),
            format!("{{\"items\":[{{\"data_list\":[{{\"type\":{},\"data\":[]}}]}}]}}", quoted)
        );
    }
}

#[test]
fn bytes_are_written_as_serde_json_writes_numbers() {
    let data: Vec<u8> = (0..=255u8).collect();
    let mut event = Event::new();
    event.new_item();
    event.add_data("b".to_string(), data.clone());
    let numbers = serde_json::to_string(&data).unwrap();
    assert_eq!(
        event.to_json(),
        format!("{{\"items\":[{{\"data_list\":[{{\"type\":\"b\",\"data\":{}}}]}}]}}", numbers)
    );
}
