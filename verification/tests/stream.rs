//! Reads, writes and shutdown of a byte stream.

use std::cell::Cell;
use std::collections::VecDeque;
use wire::transport::io::{check_deadline, ErrorKind};
use wire::transport::stream::{
    frame_deadline, Close, ReadHalf, ReadStep, Shutdown, WriteHalf, WriteStep,
};

/// Calls of a byte stream's adapter. The clock is the adapter's to move.
trait Adapter {
    fn set_deadline(&mut self, deadline: Option<u64>) -> Result<(), ErrorKind>;
    fn read(&mut self, buf: &mut Vec<u8>) -> Result<usize, ErrorKind>;
    fn write(&mut self, bytes: &[u8]) -> Result<usize, ErrorKind>;
    fn flush(&mut self) -> Result<(), ErrorKind>;
}

/// Reads once, with an optional deadline.
fn read(
    adapter: &mut dyn Adapter,
    shutdown: &mut Shutdown,
    clock: &Cell<u64>,
    buf: &mut Vec<u8>,
    deadline: Option<u64>,
) -> Result<usize, ErrorKind> {
    let mut half = ReadHalf::new();
    loop {
        let result = match half.read(shutdown, clock.get(), deadline) {
            ReadStep::SetDeadline => adapter.set_deadline(deadline).map(|_| 0),
            ReadStep::Read => adapter.read(buf),
            ReadStep::Done(result) => return result,
        };
        half.returned(shutdown, result);
    }
}

/// Writes and flushes under one deadline.
fn write(
    adapter: &mut dyn Adapter,
    shutdown: &mut Shutdown,
    clock: &Cell<u64>,
    bytes: &[u8],
    deadline: u64,
) -> Result<(), ErrorKind> {
    let mut half = WriteHalf::new(bytes.len());
    loop {
        let result = match half.write(shutdown, clock.get(), deadline) {
            WriteStep::SetDeadline => adapter.set_deadline(Some(deadline)).map(|_| 0),
            WriteStep::Write(at) => adapter.write(&bytes[at..]),
            WriteStep::Flush => adapter.flush().map(|_| 0),
            WriteStep::Done(result) => {
                assert_eq!(
                    half.outcome(clock.get(), deadline),
                    Some(result.and_then(|_| check_deadline(clock.get(), deadline)))
                );
                return result;
            }
        };
        half.returned(shutdown, result);
        assert!(!matches!(half.outcome(0, deadline), Some(Ok(()))) || result.is_ok());
    }
}

/// Adapter whose calls are scripted, recording what it was offered.
#[derive(Default)]
struct Script {
    refusal: Option<ErrorKind>, // Failure of the deadline setter
    input: Vec<u8>,             // Bytes for the next read
    reads: VecDeque<ErrorKind>, // Failures ahead of it
    results: VecDeque<Result<usize, ErrorKind>>, // Writes to come, all of the bytes otherwise
    offered: Vec<Vec<u8>>,
    accepted: Vec<u8>,
    flush_error: Option<ErrorKind>,
    flushes: usize,
    settings: usize,
    deadlines: Vec<Option<u64>>,
}

impl Adapter for Script {
    fn set_deadline(&mut self, deadline: Option<u64>) -> Result<(), ErrorKind> {
        self.settings += 1;
        self.deadlines.push(deadline);
        match self.refusal {
            Some(kind) => Err(kind),
            None => Ok(()),
        }
    }

    fn read(&mut self, buf: &mut Vec<u8>) -> Result<usize, ErrorKind> {
        if let Some(kind) = self.reads.pop_front() {
            return Err(kind);
        }
        buf.append(&mut self.input);
        Ok(buf.len())
    }

    fn write(&mut self, bytes: &[u8]) -> Result<usize, ErrorKind> {
        self.offered.push(bytes.to_vec());
        let result = self.results.pop_front().unwrap_or(Ok(bytes.len()));
        if let Ok(size) = result {
            self.accepted.extend_from_slice(&bytes[..size]);
        }
        result
    }

    fn flush(&mut self) -> Result<(), ErrorKind> {
        self.flushes += 1;
        match self.flush_error {
            Some(kind) => Err(kind),
            None => Ok(()),
        }
    }
}

// A reader can have bytes ready after its deadline, but the transport must reject an
// expired attempt before consuming those bytes.
#[test]
fn test_memory_reader_keeps_transport_deadline() {
    let clock = Cell::new(86_400_000_000_000);
    let mut shutdown = Shutdown::new();
    let mut reader = Script { input: b"abc".to_vec(), ..Script::default() };

    // Refuse an expired read without consuming the available bytes
    let mut bytes = Vec::new();
    assert_eq!(
        read(&mut reader, &mut shutdown, &clock, &mut bytes, Some(clock.get())),
        Err(ErrorKind::TimedOut)
    );
    assert!(bytes.is_empty());
    assert_eq!(read(&mut reader, &mut shutdown, &clock, &mut bytes, None), Ok(3));
    assert_eq!(bytes, b"abc");
    assert_eq!(reader.deadlines, vec![None]);
}

// Timeouts and interruptions are retried within the deadline, other failures and
// successes returned as they are.
#[test]
fn test_read_retries() {
    let clock = Cell::new(0);
    let mut shutdown = Shutdown::new();
    let mut reader = Script {
        input: b"abc".to_vec(),
        reads: [ErrorKind::TimedOut, ErrorKind::Interrupted].into(),
        ..Script::default()
    };
    let mut bytes = Vec::new();
    assert_eq!(read(&mut reader, &mut shutdown, &clock, &mut bytes, Some(5)), Ok(3));
    assert_eq!(reader.deadlines, vec![Some(5); 3]);
    reader.reads.push_back(ErrorKind::WouldBlock);
    assert_eq!(
        read(&mut reader, &mut shutdown, &clock, &mut bytes, Some(5)),
        Err(ErrorKind::WouldBlock)
    );
}

/// What an admitted call is held in while shutdown begins.
#[derive(Clone, Copy)]
enum Held {
    Reading,
    Writing,
    Flushing,
}

/// Runs an adapter call across shutdown, giving the result of the whole operation.
fn during_shutdown(held: Held, result: Result<usize, ErrorKind>) -> Result<usize, ErrorKind> {
    let mut shutdown = Shutdown::new();
    let size = match held {
        Held::Writing => 3,
        _ => 0,
    };
    let mut reading = ReadHalf::new();
    let mut writing = WriteHalf::new(size);
    // Admit the call
    match held {
        Held::Reading => {
            assert_eq!(reading.read(&mut shutdown, 0, None), ReadStep::SetDeadline);
            reading.returned(&mut shutdown, Ok(0));
            assert_eq!(reading.read(&mut shutdown, 0, None), ReadStep::Read);
        }
        _ => {
            assert_eq!(writing.write(&mut shutdown, 0, 5), WriteStep::SetDeadline);
            writing.returned(&mut shutdown, Ok(0));
            let step = writing.write(&mut shutdown, 0, 5);
            assert!(matches!(step, WriteStep::Write(0) | WriteStep::Flush));
        }
    }
    // Close only after the adapter has been called, and preserve its result
    assert_eq!(shutdown.begin_close(), Close::Run);
    assert!(!shutdown.finish_close());
    let over = match held {
        Held::Reading => {
            reading.returned(&mut shutdown, result);
            match reading.read(&mut shutdown, 0, None) {
                ReadStep::Done(result) => result,
                step => panic!("read goes on with {:?}", step),
            }
        }
        _ => {
            writing.returned(&mut shutdown, result);
            match writing.write(&mut shutdown, 0, 5) {
                WriteStep::Done(result) => result.map(|_| 0),
                step => panic!("write goes on with {:?}", step),
            }
        }
    };
    assert!(shutdown.finish_close());
    over
}

// Tests that shutdown preserves admitted read and final flush results, including
// original errors. An admitted write can accept its bytes after closing starts, but
// the full operation then refuses the subsequent flush.
#[test]
fn test_admitted_io_preserves_results_during_shutdown() {
    let failure = Err(ErrorKind::Other);
    assert_eq!(during_shutdown(Held::Reading, Ok(1)), Ok(1));
    assert_eq!(during_shutdown(Held::Reading, failure), failure);
    assert_eq!(during_shutdown(Held::Writing, Ok(3)), Err(ErrorKind::NotConnected));
    assert_eq!(during_shutdown(Held::Writing, failure), failure);
    assert_eq!(during_shutdown(Held::Flushing, Ok(0)), Ok(0));
    assert_eq!(during_shutdown(Held::Flushing, failure), failure);
}

/// Closes a stream, counting the runs of its shutdown action.
fn close(shutdown: &mut Shutdown, calls: &mut usize) {
    if shutdown.begin_close() == Close::Run {
        *calls += 1;
        assert!(shutdown.finish_close());
    }
    assert!(shutdown.is_closed());
}

// Tests that closing invokes shutdown exactly once, and repeated closes do nothing.
#[test]
fn test_ownership_and_repeated_close() {
    let mut calls = 0;
    let mut shutdown = Shutdown::new();
    assert!(!shutdown.is_closed());
    close(&mut shutdown, &mut calls);
    assert_eq!(calls, 1);
    close(&mut shutdown, &mut calls);
    close(&mut shutdown, &mut calls);
    assert_eq!(calls, 1);
    assert!(!shutdown.enter());
}

// Concurrent closers wait until admitted I/O is released, refusing further I/O in the
// meantime.
#[test]
fn test_concurrent_closers_wait_on_stream_clock() {
    // Keep admitted operations alive while two closers close the stream
    let mut shutdown = Shutdown::new();
    assert!(shutdown.enter());
    assert!(shutdown.enter());
    assert_eq!(shutdown.begin_close(), Close::Run);
    assert_eq!(shutdown.begin_close(), Close::Wait);
    assert!(!shutdown.enter());
    assert!(!shutdown.finish_close());

    // Complete the admitted operations and let both closers finish
    assert!(!shutdown.leave());
    assert!(!shutdown.finish_close());
    assert!(shutdown.leave());
    assert_eq!(shutdown.begin_close(), Close::Wait);
    assert!(shutdown.finish_close());
    assert_eq!(shutdown.begin_close(), Close::Done);
    assert!(!shutdown.enter());
}

/// Accepts one byte per write and can hold flush until its deadline. Recorded
/// deadlines reveal whether partial progress restarts the budget.
struct BudgetWriter<'a> {
    clock: &'a Cell<u64>,
    bytes: Vec<u8>,
    deadlines: Vec<u64>,
    stall_flush: bool,
    deadline: u64,
    settings: usize,
}

impl Adapter for BudgetWriter<'_> {
    fn set_deadline(&mut self, deadline: Option<u64>) -> Result<(), ErrorKind> {
        self.deadline = deadline.unwrap();
        self.settings += 1;
        Ok(())
    }

    fn read(&mut self, _: &mut Vec<u8>) -> Result<usize, ErrorKind> {
        unreachable!("only written to")
    }

    fn write(&mut self, bytes: &[u8]) -> Result<usize, ErrorKind> {
        check_deadline(self.clock.get(), self.deadline)?;
        self.deadlines.push(self.deadline);
        self.bytes.push(bytes[0]);
        Ok(1)
    }

    fn flush(&mut self) -> Result<(), ErrorKind> {
        self.deadlines.push(self.deadline);
        if self.stall_flush {
            self.clock.set(self.deadline);
            return Err(ErrorKind::TimedOut);
        }
        check_deadline(self.clock.get(), self.deadline)
    }
}

// Tests that partial writes and a blocked flush share one absolute deadline, a timeout
// leaves the stream reusable, and a zero budget never calls I/O.
#[test]
fn test_output_deadline_and_reuse() {
    // Start a partial write whose flush parks until its clock deadline
    let clock = Cell::new(1_000);
    let mut shutdown = Shutdown::new();
    let mut writer = BudgetWriter {
        clock: &clock,
        bytes: Vec::new(),
        deadlines: Vec::new(),
        stall_flush: true,
        deadline: 0,
        settings: 0,
    };
    let timeout = 40_000_000;
    let deadline = frame_deadline(clock.get(), timeout, None);
    assert_eq!(deadline, 1_000 + timeout);
    assert_eq!(
        write(&mut writer, &mut shutdown, &clock, b"abc", deadline),
        Err(ErrorKind::TimedOut)
    );
    assert_eq!(writer.deadlines, vec![deadline; 4]);
    assert_eq!(writer.settings, 1);

    // Resume writes with a new deadline on the same stream
    writer.stall_flush = false;
    let deadline = clock.get() + 5_000_000_000;
    assert_eq!(write(&mut writer, &mut shutdown, &clock, b"d", deadline), Ok(()));
    assert_eq!(writer.bytes, b"abcd");
    assert_eq!(writer.settings, 2);

    // Reject an already expired budget before configuring adapter I/O
    let calls = writer.deadlines.len();
    let deadline = frame_deadline(clock.get(), 0, None);
    assert_eq!(
        write(&mut writer, &mut shutdown, &clock, b"e", deadline),
        Err(ErrorKind::TimedOut)
    );
    assert_eq!(writer.deadlines.len(), calls);
    assert_eq!(writer.settings, 2);
}

// Tests that a handshake's deadline shortens the write budget and never extends it.
#[test]
fn test_frame_deadline() {
    assert_eq!(frame_deadline(10, 5, None), 15);
    assert_eq!(frame_deadline(10, 5, Some(12)), 12);
    assert_eq!(frame_deadline(10, 5, Some(15)), 15);
    assert_eq!(frame_deadline(10, 5, Some(99)), 15);
    assert_eq!(check_deadline(11, 12), Ok(()));
    assert_eq!(check_deadline(12, 12), Err(ErrorKind::TimedOut));
}

// Tests the complete write operation with interruption and partial progress: retries
// retain the unsent suffix, zero progress fails without flushing, and an interrupted
// flush is returned directly rather than retried.
#[test]
fn test_partial_write_retries_and_failures() {
    for (stalls, interrupted_flush) in [(false, false), (true, false), (false, true)] {
        // Run an interrupted write followed by partial progress on a paused clock
        let clock = Cell::new(0);
        let mut shutdown = Shutdown::new();
        let mut writer = Script {
            results: [Err(ErrorKind::Interrupted), Ok(1), Ok(usize::from(!stalls))].into(),
            flush_error: if interrupted_flush { Some(ErrorKind::Interrupted) } else { None },
            ..Script::default()
        };
        let result = write(&mut writer, &mut shutdown, &clock, b"ab", 5_000_000_000);
        if stalls {
            assert_eq!(result, Err(ErrorKind::WriteZero));
        } else if interrupted_flush {
            assert_eq!(result, Err(ErrorKind::Interrupted));
        } else {
            assert_eq!(result, Ok(()));
        }
        // Retain the unsent suffix across retries and configure the deadline once
        assert_eq!(writer.offered, [b"ab".to_vec(), b"ab".to_vec(), b"b".to_vec()]);
        assert_eq!(writer.accepted, if stalls { &b"a"[..] } else { &b"ab"[..] });
        assert_eq!(writer.flushes, usize::from(!stalls));
        assert_eq!(writer.settings, 1);
    }
}

// Tests that a failed deadline setter prevents byte I/O and preserves its error,
// including Interrupted and TimedOut. Only retryable errors from an actual read may
// start another attempt.
#[test]
fn test_deadline_setter_failure_prevents_io() {
    for kind in [ErrorKind::Interrupted, ErrorKind::TimedOut] {
        // Fail each direction's deadline installation before byte I/O
        let clock = Cell::new(0);
        let mut shutdown = Shutdown::new();
        let mut reader =
            Script { refusal: Some(kind), input: vec![1], ..Script::default() };
        let mut bytes = Vec::new();
        assert_eq!(read(&mut reader, &mut shutdown, &clock, &mut bytes, None), Err(kind));
        let mut writer = Script { refusal: Some(kind), ..Script::default() };
        assert_eq!(write(&mut writer, &mut shutdown, &clock, &[1], 5), Err(kind));

        // Refuse all new I/O after shutdown without another deadline setter call
        close(&mut shutdown, &mut 0);
        assert_eq!(read(&mut reader, &mut shutdown, &clock, &mut bytes, None), Ok(0));
        assert_eq!(
            write(&mut writer, &mut shutdown, &clock, &[1], 5),
            Err(ErrorKind::NotConnected)
        );
        assert!(bytes.is_empty());
        assert!(writer.offered.is_empty());
        assert_eq!(writer.flushes, 0);
        assert_eq!(reader.settings, 1);
        assert_eq!(writer.settings, 1);
    }
}

/// Accepts one byte but returns only at its installed deadline.
struct LateWriter<'a> {
    clock: &'a Cell<u64>,
    deadline: u64,
    bytes: Vec<u8>,
}

impl Adapter for LateWriter<'_> {
    fn set_deadline(&mut self, deadline: Option<u64>) -> Result<(), ErrorKind> {
        self.deadline = deadline.unwrap();
        Ok(())
    }

    fn read(&mut self, _: &mut Vec<u8>) -> Result<usize, ErrorKind> {
        unreachable!("only written to")
    }

    fn write(&mut self, bytes: &[u8]) -> Result<usize, ErrorKind> {
        self.bytes.push(bytes[0]);
        self.clock.set(self.deadline);
        Ok(1)
    }

    fn flush(&mut self) -> Result<(), ErrorKind> {
        panic!("flush admitted after deadline expired")
    }
}

// Tests that a partial write returning after its deadline leaves its accepted byte
// intact but fails the complete operation. Depending on the input length, either the
// remaining write or flush is refused before I/O.
#[test]
fn test_late_write_preserves_progress() {
    for bytes in [&b"a"[..], &b"ab"[..]] {
        let clock = Cell::new(0);
        let mut shutdown = Shutdown::new();
        let mut writer = LateWriter { clock: &clock, deadline: 0, bytes: Vec::new() };
        let result = write(&mut writer, &mut shutdown, &clock, bytes, 40_000_000);

        // Retain only the accepted byte and reject all subsequent adapter I/O
        assert_eq!(result, Err(ErrorKind::TimedOut));
        assert_eq!(writer.bytes, b"a");
    }
}
