use flood_rs::{ReadOctetStream, WriteOctetStream};
use flood_rs::in_stream::InOctetStream;
use flood_rs::out_stream::OutOctetStream;
use nimble::datagram::{deserialize_datagrams, serialize_datagrams, BuilderCall, DatagramBuilder, DatagramParser};
use nimble::stream::{Deserialize, Serialize, StreamError, View};

#[derive(Debug, PartialEq)]
enum TestItem {
    Name { input: String },
    Amount(i16),
}

impl View for TestItem {
    type V = ();

    fn view(&self) {}
}

impl Serialize for TestItem {
    fn octets_of(_: ()) -> vstd::seq::Seq<u8> {
        unreachable!()
    }

    fn serialize(&self, stream: &mut OutOctetStream) {
        match self {
            TestItem::Name { input } => {
                stream.write_u8(0x01).unwrap();
                stream.write_u8(input.len() as u8).unwrap();
                stream.write(input.as_bytes()).unwrap();
            }
            TestItem::Amount(amount) => {
                stream.write_u8(0x02).unwrap();
                stream.write_i16(*amount).unwrap();
            }
        }
    }
}

fn stream_error(_: std::io::Error) -> StreamError {
    StreamError::UnexpectedEnd
}

impl Deserialize for TestItem {
    fn parse(_: vstd::seq::Seq<u8>) -> Result<((), vstd::prelude::nat), StreamError> {
        unreachable!()
    }

    fn deserialize(stream: &mut InOctetStream) -> Result<Self, StreamError> {
        let type_id = stream.read_u8().map_err(stream_error)?;
        let cmd = match type_id {
            0x01 => {
                let len = stream.read_u8().map_err(stream_error)? as usize;
                let mut vec = vec![0u8; len];
                stream.read(&mut vec).map_err(stream_error)?;
                Self::Name {
                    input: String::from_utf8(vec).map_err(|_| StreamError::InvalidData)?,
                }
            }

            0x02 => {
                let amount = stream.read_i16().map_err(stream_error)?;
                Self::Amount(amount)
            }

            _ => Err(StreamError::InvalidData)?,
        };
        Ok(cmd)
    }
}

struct ExampleDatagramBuilder;

impl DatagramBuilder for ExampleDatagramBuilder {
    fn calls(&self) -> vstd::seq::Seq<BuilderCall> {
        unreachable!()
    }

    fn start_datagram(&mut self, buffer: &mut [u8]) -> Result<(usize, usize), StreamError> {
        buffer[0] = 0x01;
        buffer[1] = 0xff;
        Ok((2, buffer.len() - 1))
    }

    fn end_datagram(&mut self, buffer: &mut [u8], payload_len: usize) -> Result<usize, StreamError> {
        buffer[0] = 0x02;
        buffer[payload_len + 2] = 0x00;

        Ok(3 + payload_len)
    }
}

struct ExampleDatagramParser;

impl DatagramParser for ExampleDatagramParser {
    fn parsed(&self) -> vstd::seq::Seq<(vstd::seq::Seq<u8>, Option<vstd::seq::Seq<u8>>)> {
        unreachable!()
    }

    fn parse<'a>(&mut self, datagram: &'a [u8]) -> Result<&'a [u8], StreamError> {
        assert_eq!(datagram[0], 0x02);
        assert_eq!(datagram[1], 0xff);

        Ok(datagram[2..datagram.len() - 1].as_ref())
    }
}

#[test]
fn serialize_single_datagram() {
    let items = [
        TestItem::Name {
            input: "foo".into(),
        },
        TestItem::Amount(42),
        TestItem::Name {
            input: "bar".into(),
        },
    ];
    const EXPECTED_DATAGRAM: &[u8] = &[
        0x02, 0xff, 0x01, 3, b'f', b'o', b'o', 0x02, 0x00, 42, 0x01, 3, b'b', b'a', b'r', 0x00,
    ];
    let mut builder = ExampleDatagramBuilder;
    let datagrams = serialize_datagrams(&items, 1024, &mut builder).expect("serialization failed");
    assert_eq!(datagrams.len(), 1);
    assert_eq!(datagrams[0], EXPECTED_DATAGRAM);

    let mut parser = ExampleDatagramParser;
    let deserialized_items: Vec<TestItem> =
        deserialize_datagrams(datagrams, &mut parser).expect("deserialization failed");
    assert_eq!(items.len(), deserialized_items.len());
    assert_eq!(*deserialized_items, items);
}

#[test]
fn serialize_and_deserialize_multiple_datagrams() {
    const MAX_PACKET_SIZE: usize = 8;
    let items = [
        TestItem::Name {
            input: "foo".into(),
        },
        TestItem::Amount(42),
        TestItem::Name {
            input: "bar".into(),
        },
    ];

    const EXPECTED_DATAGRAMS: [&[u8]; 3] = [
        &[
            0x02, 0xff, // header
            0x01, 3, 'f' as u8, 'o' as u8, 'o' as u8, 0x00, // end of datagram
        ],
        &[
            0x02, 0xff, // header
            0x02, 0x00, 42, 0x00, // end of datagram
        ],
        &[
            0x02, 0xff, // header
            0x01, 3, 'b' as u8, 'a' as u8, 'r' as u8, 0x00, // end of datagram
        ],
    ];

    const EXPECTED_DATAGRAM_COUNT: usize = 3;

    let mut builder = ExampleDatagramBuilder;
    let datagrams =
        serialize_datagrams(&items, MAX_PACKET_SIZE, &mut builder).expect("serialization failed");
    assert_eq!(datagrams.len(), EXPECTED_DATAGRAM_COUNT);

    for i in 0..EXPECTED_DATAGRAM_COUNT {
        assert_eq!(datagrams[i].len(), EXPECTED_DATAGRAMS[i].len());
        assert_eq!(datagrams[i], EXPECTED_DATAGRAMS[i]);
    }

    let mut parser = ExampleDatagramParser;
    let deserialized_items: Vec<TestItem> =
        deserialize_datagrams(datagrams, &mut parser).expect("deserialization failed");
    assert_eq!(items.len(), deserialized_items.len());
}

#[test]
fn an_item_larger_than_a_datagram_is_refused() {
    let items = [TestItem::Name {
        input: "too long for the datagram".into(),
    }];
    let mut builder = ExampleDatagramBuilder;
    let result = serialize_datagrams(&items, 8, &mut builder);
    assert_eq!(
        result,
        Err(nimble::datagram::SerializeDatagramsError::ItemExceedsPayloadSpace)
    );
}

#[test]
fn no_items_give_no_datagrams() {
    let items: [TestItem; 0] = [];
    let mut builder = ExampleDatagramBuilder;
    let datagrams = serialize_datagrams(&items, 8, &mut builder).expect("serialization failed");
    assert!(datagrams.is_empty());
}

struct RefusingDatagramBuilder {
    starts: usize,
}

impl DatagramBuilder for RefusingDatagramBuilder {
    fn calls(&self) -> vstd::seq::Seq<BuilderCall> {
        unreachable!()
    }

    fn start_datagram(&mut self, buffer: &mut [u8]) -> Result<(usize, usize), StreamError> {
        assert!(buffer.iter().all(|octet| *octet == 0));
        self.starts += 1;
        Err(StreamError::InvalidData)
    }

    fn end_datagram(&mut self, _buffer: &mut [u8], _payload_len: usize) -> Result<usize, StreamError> {
        unreachable!()
    }
}

#[test]
fn the_builders_first_failure_is_passed_on() {
    let items = [TestItem::Amount(1)];
    let mut builder = RefusingDatagramBuilder { starts: 0 };
    let result = serialize_datagrams(&items, 8, &mut builder);
    assert_eq!(
        result,
        Err(nimble::datagram::SerializeDatagramsError::Builder(StreamError::InvalidData))
    );
    assert_eq!(builder.starts, 1);
}
