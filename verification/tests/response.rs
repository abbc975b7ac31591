use std::sync::Arc;

use readyset_core::message::{
    BackendMessage, CommandCompleteTag, Error, MessageList, PsqlSrvRow, PsqlValue, TransferFormat,
};
use readyset_core::response::{Response, WriteAction, WriteEvent, WritePhase};

type Rows = Vec<Result<PsqlSrvRow, Error>>;
type TestResponse = Response<Rows>;

/// Writes a response to a sink.
fn write<F>(response: TestResponse, mut sink: F) -> Result<(), String>
where
    F: FnMut(BackendMessage) -> Result<(), String>,
{
    let (mut writer, resultset, mut action) = response.write::<String>();
    let mut rows = resultset.unwrap_or_default().into_iter();
    loop {
        let event = match action {
            WriteAction::Feed(message) => {
                assert_eq!(writer.phase(), WritePhase::Feeding);
                WriteEvent::Fed(sink(message))
            }
            WriteAction::NextRow => {
                assert_eq!(writer.phase(), WritePhase::FetchingRow);
                WriteEvent::Row(rows.next())
            }
            WriteAction::Return(result) => {
                assert_eq!(writer.phase(), WritePhase::Finished);
                return result;
            }
        };
        action = writer.step(event);
    }
}

/// Writes a response, and lists the messages that the sink was fed.
fn written(response: TestResponse) -> Vec<BackendMessage> {
    let mut messages = Vec::new();
    write(response, |m| {
        messages.push(m);
        Ok(())
    })
    .unwrap();
    messages
}

fn double(value: f64) -> PsqlValue {
    PsqlValue::Double(value.to_bits())
}

fn error(message: &str) -> Error {
    Error {
        sqlstate: "XX000".to_string(),
        message: message.to_string(),
    }
}

#[test]
fn write_empty() {
    let response = TestResponse::Empty;
    write(response, |_m| {
        // No messages are expected.
        panic!();
    })
    .unwrap();
}

#[test]
fn write_message() {
    let response = TestResponse::Empty;
    let mut i = 0;
    write(response, |m| {
        match i {
            0 => assert!(matches!(m, BackendMessage::BindComplete)),
            // No further messages are expected.
            _ => panic!(),
        }
        i += 1;
        Ok(())
    })
    .unwrap();
}

#[test]
fn write_message2() {
    let response = TestResponse::Messages(MessageList::new(vec![
        BackendMessage::BindComplete,
        BackendMessage::CloseComplete,
    ]));
    let mut i = 0;
    write(response, |m| {
        match i {
            0 => assert!(matches!(m, BackendMessage::BindComplete)),
            1 => assert!(matches!(m, BackendMessage::CloseComplete)),
            // No further messages are expected.
            _ => panic!(),
        }
        i += 1;
        Ok(())
    })
    .unwrap();
    assert_eq!(i, 2);
}

#[test]
fn write_select_simple_empty() {
    let response = TestResponse::Select {
        header: None,
        resultset: vec![],
        result_transfer_formats: None,
        trailer: None,
    };
    let mut i = 0;
    write(response, |m| {
        match i {
            0 => assert!(matches!(
                m,
                BackendMessage::CommandComplete {
                    tag: CommandCompleteTag::Select(0)
                }
            )),
            // No further messages are expected.
            _ => panic!(),
        }
        i += 1;
        Ok(())
    })
    .unwrap();
    assert_eq!(i, 1);
}

#[test]
fn write_select() {
    let response = Response::Select {
        header: Some(BackendMessage::RowDescription {
            field_descriptions: vec![],
        }),
        resultset: vec![
            Ok(vec![PsqlValue::Int(5), double(0.123)].into()),
            Ok(vec![PsqlValue::Int(99), double(0.456)].into()),
        ],
        result_transfer_formats: Some(Arc::new(vec![
            TransferFormat::Text,
            TransferFormat::Binary,
        ])),
        trailer: Some(BackendMessage::ready_for_query_idle()),
    };
    let mut i = 0;
    write(response, |m| {
        match i {
            0 => assert!(matches!(
                m,
                BackendMessage::RowDescription {
                    field_descriptions
                } if field_descriptions == vec![]
            )),
            1 => match m {
                BackendMessage::DataRow {
                    values,
                    explicit_transfer_formats,
                } => {
                    assert_eq!(values, vec![PsqlValue::Int(5), double(0.123)]);
                    assert_eq!(
                        explicit_transfer_formats,
                        Some(Arc::new(vec![TransferFormat::Text, TransferFormat::Binary]))
                    );
                }
                _ => panic!("Unexpected message {:?}", m),
            },
            2 => match m {
                BackendMessage::DataRow {
                    values,
                    explicit_transfer_formats,
                } => {
                    assert_eq!(values, vec![PsqlValue::Int(99), double(0.456)]);
                    assert_eq!(
                        explicit_transfer_formats,
                        Some(Arc::new(vec![TransferFormat::Text, TransferFormat::Binary]))
                    );
                }
                _ => panic!("Unexpected message {:?}", m),
            },
            3 => assert!(matches!(
                m,
                BackendMessage::CommandComplete {
                    tag
                } if tag == CommandCompleteTag::Select(2)
            )),
            4 => match (m, BackendMessage::ready_for_query_idle()) {
                (
                    BackendMessage::ReadyForQuery { status },
                    BackendMessage::ReadyForQuery {
                        status: expected_status,
                    },
                ) => assert_eq!(status, expected_status),
                _ => panic!(),
            },
            // No further messages are expected.
            _ => panic!(),
        }
        i += 1;
        Ok(())
    })
    .unwrap();
    assert_eq!(i, 5);
}

#[test]
fn write_single_message() {
    assert_eq!(
        written(TestResponse::Message(BackendMessage::BindComplete)),
        vec![BackendMessage::BindComplete]
    );
}

#[test]
fn write_keeps_the_order_of_many_messages() {
    let message = |i: u8| BackendMessage::Encoded(vec![i]);
    let list = MessageList::new((0..5).map(message).collect());
    let expected: Vec<BackendMessage> = (0..5).map(message).collect();
    assert_eq!(written(TestResponse::Messages(list)), expected);
    assert_eq!(
        written(TestResponse::Messages(MessageList::new(vec![]))),
        vec![]
    );
}

#[test]
fn write_select_sends_errors_without_counting_them() {
    let response = TestResponse::Select {
        header: None,
        resultset: vec![
            Ok(PsqlSrvRow::RawRow(vec![1, 2])),
            Err(error("broken")),
            Ok(PsqlSrvRow::ValueVec(vec![PsqlValue::Int(7)])),
        ],
        result_transfer_formats: None,
        trailer: None,
    };
    assert_eq!(
        written(response),
        vec![
            BackendMessage::PassThroughDataRow(vec![1, 2]),
            BackendMessage::ErrorResponse {
                sqlstate: "XX000".to_string(),
                message: "broken".to_string(),
            },
            BackendMessage::DataRow {
                values: vec![PsqlValue::Int(7)],
                explicit_transfer_formats: None,
            },
            BackendMessage::CommandComplete {
                tag: CommandCompleteTag::Select(2)
            },
        ]
    );
}

#[test]
fn write_stops_at_the_first_message_that_cannot_be_fed() {
    let response = TestResponse::Select {
        header: Some(BackendMessage::BindComplete),
        resultset: vec![
            Ok(PsqlSrvRow::RawRow(vec![1])),
            Ok(PsqlSrvRow::RawRow(vec![2])),
        ],
        result_transfer_formats: None,
        trailer: Some(BackendMessage::CloseComplete),
    };
    let mut fed = Vec::new();
    let result = write(response, |m| {
        fed.push(m);
        if fed.len() == 2 {
            Err("closed".to_string())
        } else {
            Ok(())
        }
    });
    assert_eq!(result, Err("closed".to_string()));
    assert_eq!(
        fed,
        vec![
            BackendMessage::BindComplete,
            BackendMessage::PassThroughDataRow(vec![1]),
        ]
    );
}

#[test]
fn rows_share_the_transfer_formats() {
    let formats = Arc::new(vec![TransferFormat::Binary]);
    let response = TestResponse::Select {
        header: None,
        resultset: vec![Ok(PsqlSrvRow::ValueVec(vec![]))],
        result_transfer_formats: Some(Arc::clone(&formats)),
        trailer: None,
    };
    match &written(response)[0] {
        BackendMessage::DataRow {
            explicit_transfer_formats: Some(shared),
            ..
        } => assert!(Arc::ptr_eq(shared, &formats)),
        m => panic!("Unexpected message {:?}", m),
    }
}

#[test]
fn writer_counts_the_rows_so_far() {
    let response = TestResponse::Select {
        header: None,
        resultset: vec![],
        result_transfer_formats: None,
        trailer: None,
    };
    let (mut writer, _, _) = response.write::<String>();
    assert_eq!(writer.rows_written(), Some(0));
    writer.step(WriteEvent::<String>::Row(Some(Ok(PsqlSrvRow::RawRow(vec![])))));
    assert_eq!(writer.rows_written(), Some(1));
    writer.step(WriteEvent::<String>::Fed(Ok(())));
    writer.step(WriteEvent::<String>::Row(Some(Err(error("no row")))));
    assert_eq!(writer.rows_written(), Some(1));
    writer.step(WriteEvent::<String>::Fed(Ok(())));
    writer.step(WriteEvent::<String>::Row(None));
    assert_eq!(writer.rows_written(), None);
}

#[test]
fn message_list_gives_back_its_messages() {
    let list = MessageList::new(vec![
        BackendMessage::CloseComplete,
        BackendMessage::BindComplete,
        BackendMessage::CloseComplete,
    ]);
    assert_eq!(
        list.into_messages(),
        vec![
            BackendMessage::CloseComplete,
            BackendMessage::BindComplete,
            BackendMessage::CloseComplete,
        ]
    );
}

#[test]
fn idle_status_is_the_letter_of_the_protocol() {
    assert_eq!(
        BackendMessage::ready_for_query_idle(),
        BackendMessage::ReadyForQuery { status: b'I' }
    );
}
