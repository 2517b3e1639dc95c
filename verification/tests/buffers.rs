use rgzip::buffers::channel::{forward_all, forward_data, ChannelBuffer, ChannelData};
use rgzip::buffers::circular::CircularBuffer;
use rgzip::buffers::copy::CopyBuffer;
use rgzip::buffers::inmemory::InMemoryBuffer;
use rgzip::buffers::outputbuffer::{OutputBuffer, WINDOW_SIZE};
use rgzip::errors::GzipError;
use rgzip::sinks::bytesink::ByteSink;
use rgzip::sinks::limited::LimitedSink;

/// The copy that a back-reference asks for, one byte at a time.
fn reference_copy(history: &mut Vec<u8>, distance: usize, length: usize) {
    for _ in 0..length {
        let byte = history[history.len() - distance];
        history.push(byte);
    }
}

/// One step of a script for an output buffer.
enum Step {
    Byte(u8),
    Bytes(Vec<u8>),
    Copy(u32, u32),
}

fn script() -> Vec<Step> {
    let mut steps = vec![
        Step::Byte(b'a'),
        Step::Byte(b'b'),
        Step::Copy(2, 5),
        Step::Bytes(b"xyz".to_vec()),
        Step::Copy(1, 258),
        Step::Copy(10, 3),
    ];
    for i in 0..40000u32 {
        steps.push(Step::Byte((i % 251) as u8));
    }
    steps.push(Step::Copy(32768, 70));
    steps.push(Step::Copy(32767, 300));
    steps.push(Step::Copy(3, 32770));
    steps
}

fn expected() -> Vec<u8> {
    let mut history = Vec::new();
    for step in script() {
        match step {
            Step::Byte(b) => history.push(b),
            Step::Bytes(v) => history.extend(v),
            Step::Copy(d, l) => reference_copy(&mut history, d as usize, l as usize),
        }
    }
    history
}

fn run<B: OutputBuffer>(buffer: &mut B) {
    for step in script() {
        let r = match step {
            Step::Byte(b) => buffer.put_u8(b),
            Step::Bytes(v) => buffer.put_data(&v),
            Step::Copy(d, l) => buffer.copy_window(d, l),
        };
        assert_eq!(r, Ok(()));
    }
}

#[test]
fn circular_buffer_copies_byte_by_byte() {
    let mut buffer = CircularBuffer::new(Vec::new());
    run(&mut buffer);
    assert_eq!(buffer.into_sink(), expected());
}

#[test]
fn in_memory_buffer_copies_byte_by_byte() {
    let mut buffer = InMemoryBuffer::new(Vec::new());
    run(&mut buffer);
    assert_eq!(buffer.into_sink(), expected());
}

#[test]
fn copy_buffer_copies_byte_by_byte() {
    let mut buffer = CopyBuffer::new(Vec::new());
    run(&mut buffer);
    assert_eq!(buffer.finish(), Ok(expected()));
}

#[test]
fn a_copy_longer_than_its_distance_repeats_itself() {
    let mut buffer = CircularBuffer::new(Vec::new());
    assert_eq!(buffer.put_data(b"abc"), Ok(()));
    assert_eq!(buffer.copy_window(3, 8), Ok(()));
    assert_eq!(buffer.into_sink(), b"abcabcabcab".to_vec());
    let mut buffer = InMemoryBuffer::new(Vec::new());
    assert_eq!(buffer.put_u8(b'A'), Ok(()));
    assert_eq!(buffer.copy_window(1, 3), Ok(()));
    assert_eq!(buffer.into_sink(), b"AAAA".to_vec());
}

#[test]
fn a_copy_is_a_cycle_of_the_last_bytes() {
    for distance in [1usize, 2, 3, 7, 100] {
        for length in [1usize, 2, 3, 50, 258] {
            let start: Vec<u8> = (0..100u8).collect();
            let mut buffer = CopyBuffer::new(Vec::new());
            assert_eq!(buffer.put_data(&start), Ok(()));
            assert_eq!(buffer.copy_window(distance as u32, length as u32), Ok(()));
            let out = buffer.finish().unwrap();
            assert_eq!(out.len(), 100 + length);
            assert_eq!(out[..100], start[..]);
            for i in 0..length {
                assert_eq!(out[100 + i], start[100 - distance + i % distance]);
            }
        }
    }
}

#[test]
fn a_copy_of_no_bytes_changes_nothing() {
    let mut buffer = CircularBuffer::new(Vec::new());
    assert_eq!(buffer.put_u8(1), Ok(()));
    assert_eq!(buffer.copy_window(1, 0), Ok(()));
    assert_eq!(buffer.into_sink(), vec![1]);
}

fn refuses<B: OutputBuffer>(buffer: &mut B) {
    assert_eq!(buffer.copy_window(1, 1), Err(GzipError::InvalidDeflateStream));
    assert_eq!(buffer.put_data(b"abc"), Ok(()));
    assert_eq!(buffer.copy_window(4, 1), Err(GzipError::InvalidDeflateStream));
    assert_eq!(buffer.copy_window(4, 0), Err(GzipError::InvalidDeflateStream));
    assert_eq!(buffer.copy_window(0, 1), Err(GzipError::InvalidDeflateStream));
    assert_eq!(buffer.copy_window(u32::MAX, 1), Err(GzipError::InvalidDeflateStream));
    assert_eq!(buffer.copy_window(3, 1), Ok(()));
    for _ in 0..WINDOW_SIZE {
        assert_eq!(buffer.put_u8(9), Ok(()));
    }
    assert_eq!(buffer.copy_window(32769, 1), Err(GzipError::InvalidDeflateStream));
    assert_eq!(buffer.copy_window(32768, 1), Ok(()));
}

#[test]
fn a_distance_that_reaches_too_far_is_refused() {
    let mut expected = b"abca".to_vec();
    expected.extend(vec![9u8; WINDOW_SIZE]);
    expected.push(9);

    let mut buffer = CircularBuffer::new(Vec::new());
    refuses(&mut buffer);
    assert_eq!(buffer.into_sink(), expected);

    let mut buffer = InMemoryBuffer::new(Vec::new());
    refuses(&mut buffer);
    assert_eq!(buffer.into_sink(), expected);

    let mut buffer = CopyBuffer::new(Vec::new());
    refuses(&mut buffer);
    assert_eq!(buffer.finish(), Ok(expected));
}

#[test]
fn a_sink_keeps_what_it_held() {
    let mut buffer = CircularBuffer::new(b"old".to_vec());
    assert_eq!(buffer.copy_window(1, 1), Err(GzipError::InvalidDeflateStream));
    assert_eq!(buffer.put_data(b"new"), Ok(()));
    assert_eq!(buffer.into_sink(), b"oldnew".to_vec());
}

#[test]
fn copy_buffer_hands_on_whole_windows() {
    let mut buffer = CopyBuffer::new(LimitedSink::new(WINDOW_SIZE));
    for i in 0..WINDOW_SIZE {
        assert_eq!(buffer.put_u8((i % 7) as u8), Ok(()));
    }
    // the first window went through; the next one has no room
    for _ in 0..WINDOW_SIZE - 1 {
        assert_eq!(buffer.put_u8(1), Ok(()));
    }
    assert_eq!(buffer.put_u8(1), Err(GzipError::CantWriteFile));
}

#[test]
fn a_refused_write_fails_the_buffer() {
    let mut buffer = CircularBuffer::new(LimitedSink::new(2));
    assert_eq!(buffer.put_u8(1), Ok(()));
    assert_eq!(buffer.put_u8(2), Ok(()));
    assert_eq!(buffer.put_u8(3), Err(GzipError::CantWriteFile));
    assert_eq!(buffer.into_sink().into_vec(), vec![1, 2]);
    let mut buffer = InMemoryBuffer::new(LimitedSink::new(2));
    assert_eq!(buffer.put_data(&[1, 2, 3]), Err(GzipError::CantWriteFile));
    let buffer = CopyBuffer::new(LimitedSink::new(0));
    assert!(buffer.finish().is_ok());
    let mut buffer = CopyBuffer::new(LimitedSink::new(0));
    assert_eq!(buffer.put_u8(1), Ok(()));
    assert!(buffer.finish().is_err());
    let mut buffer = CopyBuffer::new(LimitedSink::new(3));
    assert_eq!(buffer.put_data(&[1, 2, 3]), Ok(()));
    assert_eq!(buffer.finish().ok().map(|s| s.into_vec()), Some(vec![1, 2, 3]));
}

#[test]
fn a_vector_is_a_sink() {
    let mut sink: Vec<u8> = vec![1];
    assert_eq!(sink.put_u8(2), Ok(()));
    assert_eq!(sink.put_data(&[3, 4]), Ok(()));
    assert_eq!(sink, vec![1, 2, 3, 4]);
    let mut narrow = LimitedSink::new(2);
    assert_eq!(narrow.put_data(&[1, 2, 3, 4]), Err(GzipError::CantWriteFile));
    assert_eq!(narrow.put_u8(5), Err(GzipError::CantWriteFile));
    assert_eq!(narrow.into_vec(), vec![1, 2]);
}

#[test]
fn channel_buffer_records_and_a_worker_replays() {
    let mut buffer = ChannelBuffer::new();
    run(&mut buffer);
    let mut operations = buffer.into_queue();
    assert_eq!(operations[0], ChannelData::Value(b'a'));
    assert_eq!(operations[2], ChannelData::Window { length: 5, distance: 2 });
    assert_eq!(operations[3], ChannelData::Vector(b"xyz".to_vec()));
    operations.push(ChannelData::Exit);
    operations.push(ChannelData::Value(0));
    let mut worker = CircularBuffer::new(Vec::new());
    assert_eq!(forward_all(&mut worker, &operations), Ok(operations.len() - 2));
    assert_eq!(worker.into_sink(), expected());
}

#[test]
fn channel_buffer_refuses_what_a_worker_could_not_do() {
    let mut buffer = ChannelBuffer::new();
    refuses(&mut buffer);
    let operations = buffer.into_queue();
    let mut worker = CopyBuffer::new(Vec::new());
    assert_eq!(forward_all(&mut worker, &operations), Ok(operations.len()));
    let mut expected = b"abca".to_vec();
    expected.extend(vec![9u8; WINDOW_SIZE]);
    expected.push(9);
    assert_eq!(worker.finish(), Ok(expected));
}

#[test]
fn one_operation_at_a_time() {
    let mut worker = InMemoryBuffer::new(Vec::new());
    assert_eq!(forward_data(&mut worker, &ChannelData::Value(7)), Ok(true));
    assert_eq!(forward_data(&mut worker, &ChannelData::Vector(vec![8, 9])), Ok(true));
    assert_eq!(
        forward_data(&mut worker, &ChannelData::Window { length: 4, distance: 3 }),
        Ok(true)
    );
    assert_eq!(
        forward_data(&mut worker, &ChannelData::Window { length: 1, distance: 8 }),
        Err(GzipError::InvalidDeflateStream)
    );
    assert_eq!(forward_data(&mut worker, &ChannelData::Exit), Ok(false));
    assert_eq!(worker.into_sink(), vec![7, 8, 9, 7, 8, 9, 7]);
    // a queue with an operation that cannot be carried out stops there
    let mut worker = InMemoryBuffer::new(Vec::new());
    let queue = vec![ChannelData::Value(1), ChannelData::Window { length: 1, distance: 2 }];
    assert_eq!(forward_all(&mut worker, &queue), Err(GzipError::InvalidDeflateStream));
    assert_eq!(worker.into_sink(), vec![1]);
}

#[test]
fn a_sink_can_be_had_back_after_a_refused_write() {
    let mut buffer = CopyBuffer::new(LimitedSink::new(10));
    for i in 0..WINDOW_SIZE - 1 {
        assert_eq!(buffer.put_u8(i as u8), Ok(()));
    }
    // the window is full with this byte: the sink takes ten bytes of it
    assert_eq!(buffer.put_u8(0), Err(GzipError::CantWriteFile));
    assert_eq!(buffer.into_sink().into_vec(), (0..10u8).collect::<Vec<u8>>());
    let mut buffer = InMemoryBuffer::new(LimitedSink::new(1));
    assert_eq!(buffer.put_data(&[4, 5, 6]), Err(GzipError::CantWriteFile));
    assert_eq!(buffer.into_sink().into_vec(), vec![4]);
}
