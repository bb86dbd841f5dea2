//! The capability through which a running program reads and writes bytes,
//! and three implementations of it.
use crate::text::push_char;
use std::collections::VecDeque;
use std::io::Read;
use std::io::Write;
use vstd::prelude::*;

verus! {

/// One use of the capability.
pub enum IoEvent {
    /// A read, and what it gave: a byte, or nothing where no input was
    /// left.
    Read(Option<u8>),
    /// A write of the given byte.
    Write(u8),
}

/// Reads and writes single bytes. An implementation keeps a record of every
/// call made through it, in the order of the calls.
pub trait InputOutput {
    /// Every read and write made so far, the oldest first.
    spec fn log(&self) -> Seq<IoEvent>;

    /// What the implementation keeps true of itself: once it holds, it
    /// holds after every read and every write.
    spec fn inv(&self) -> bool;

    /// Gets a single byte of input, or `None` where there is none.
    fn getch(&mut self) -> (byte: Option<u8>)
        ensures
            final(self).log() == old(self).log().push(IoEvent::Read(byte)),
            old(self).inv() ==> final(self).inv(),
    ;

    /// Outputs a single byte.
    fn print(&mut self, byte: u8)
        ensures
            final(self).log() == old(self).log().push(IoEvent::Write(byte)),
            old(self).inv() ==> final(self).inv(),
    ;
}

/// The bytes that the writes of a log wrote, in their order.
pub open spec fn writes(log: Seq<IoEvent>) -> Seq<u8>
    decreases log.len(),
{
    if log.len() == 0 {
        Seq::empty()
    } else {
        match log.last() {
            IoEvent::Write(byte) => writes(log.drop_last()).push(byte),
            IoEvent::Read(_) => writes(log.drop_last()),
        }
    }
}

/// The bytes that the reads of a log gave, in their order.
pub open spec fn taken(log: Seq<IoEvent>) -> Seq<u8>
    decreases log.len(),
{
    if log.len() == 0 {
        Seq::empty()
    } else {
        match log.last() {
            IoEvent::Read(Some(byte)) => taken(log.drop_last()).push(byte),
            _ => taken(log.drop_last()),
        }
    }
}

/// The character that a written byte is shown as: the one with the byte's
/// value as its code point.
pub open spec fn shown(byte: u8) -> char {
    byte as char
}

/// The text that a sequence of written bytes is shown as.
pub open spec fn text_of(bytes: Seq<u8>) -> Seq<char> {
    Seq::new(bytes.len(), |i: int| shown(bytes[i]))
}

/// `std::io::Stdin::bytes` and the iterator's `next`: the next byte of
/// standard input. Nothing is known of the byte; `None` stands for the end
/// of input and for a failed read alike.
#[verifier::external_body]
fn read_stdin() -> Option<u8> {
    match std::io::stdin().bytes().next() {
        Some(Ok(byte)) => Some(byte),
        _ => None,
    }
}

/// `std::io::Stdout` under `write!`: sends the byte to standard output, as
/// the character of its value. Whether the write succeeded is not
/// reported.
#[verifier::external_body]
fn write_stdout(byte: u8) {
    let _ = write!(std::io::stdout(), "{}", byte as char);
}

/// Reads from standard input and writes to standard output.
pub struct StdIO {
    log: Ghost<Seq<IoEvent>>,
}

impl StdIO {
    /// The capability with nothing read or written yet.
    pub fn new() -> (io: StdIO)
        ensures
            io.log() == Seq::<IoEvent>::empty(),
    {
        StdIO { log: Ghost(Seq::empty()) }
    }
}

impl InputOutput for StdIO {
    closed spec fn log(&self) -> Seq<IoEvent> {
        self.log@
    }

    open spec fn inv(&self) -> bool {
        true
    }

    fn getch(&mut self) -> (byte: Option<u8>) {
        let byte = read_stdin();
        self.log = Ghost(self.log@.push(IoEvent::Read(byte)));
        byte
    }

    fn print(&mut self, byte: u8) {
        write_stdout(byte);
        self.log = Ghost(self.log@.push(IoEvent::Write(byte)));
    }
}

/// Reads from a queue of bytes given in advance and collects what is
/// written as text.
pub struct TestIO {
    input: VecDeque<u8>,
    output: String,
    log: Ghost<Seq<IoEvent>>,
    source: Ghost<Seq<u8>>,
}

impl TestIO {
    /// The input that has not been read yet.
    pub closed spec fn pending(&self) -> Seq<u8> {
        self.input@
    }

    /// The text written so far.
    pub closed spec fn text(&self) -> Seq<char> {
        self.output@
    }

    /// All of the input, read or not.
    pub closed spec fn source(&self) -> Seq<u8> {
        self.source@
    }

    /// The text is what the writes made so far have written, and the
    /// input is what the reads have given, followed by what is still to
    /// be read. This holds of a new capability, and reads and writes keep
    /// it.
    pub open spec fn consistent(&self) -> bool {
        &&& self.text() == text_of(writes(self.log()))
        &&& self.source() == taken(self.log()) + self.pending()
    }

    /// The capability that will give the bytes of `input`, in their
    /// order, and then nothing.
    pub fn new(input: &str) -> (io: TestIO)
        ensures
            io.source() == vstd::utf8::encode_utf8(input@),
            io.pending() == io.source(),
            io.text() == Seq::<char>::empty(),
            io.log() == Seq::<IoEvent>::empty(),
            io.consistent(),
    {
        let bytes = input.as_bytes();
        let mut queue: VecDeque<u8> = VecDeque::new();
        let mut i: usize = 0;
        while i < bytes.len()
            invariant
                i <= bytes.len(),
                queue@ == bytes@.take(i as int),
            decreases bytes.len() - i,
        {
            queue.push_back(bytes[i]);
            i += 1;
            assert(bytes@.take(i as int - 1).push(bytes@[i as int - 1]) == bytes@.take(i as int));
        }
        assert(bytes@.take(i as int) == bytes@);
        let io = TestIO {
            input: queue,
            output: String::new(),
            log: Ghost(Seq::empty()),
            source: Ghost(bytes@),
        };
        assert(io.text() =~= text_of(writes(io.log())));
        assert(io.source() =~= taken(io.log()) + io.pending());
        io
    }

    /// The text written so far.
    pub fn output(&self) -> (text: String)
        ensures
            text@ == self.text(),
    {
        self.output.clone()
    }
}

impl InputOutput for TestIO {
    closed spec fn log(&self) -> Seq<IoEvent> {
        self.log@
    }

    open spec fn inv(&self) -> bool {
        self.consistent()
    }

    /// Gives the first byte not yet read; `None` once all have been read.
    fn getch(&mut self) -> (byte: Option<u8>)
        ensures
            final(self).text() == old(self).text(),
            final(self).source() == old(self).source(),
            match byte {
                Some(b) => old(self).pending().len() > 0 && b == old(self).pending()[0]
                    && final(self).pending() == old(self).pending().drop_first(),
                None => old(self).pending().len() == 0
                    && final(self).pending() == old(self).pending(),
            },
    {
        let ghost before = self.input@;
        let byte = self.input.pop_front();
        proof {
            let log = self.log@;
            assert(log.push(IoEvent::Read(byte)).drop_last() =~= log);
            match byte {
                Some(b) => {
                    assert(taken(log).push(b) + before.drop_first() =~= taken(log) + before);
                },
                None => {},
            }
        }
        self.log = Ghost(self.log@.push(IoEvent::Read(byte)));
        byte
    }

    /// Appends the byte, as a character, to the text.
    fn print(&mut self, byte: u8)
        ensures
            final(self).text() == old(self).text().push(shown(byte)),
            final(self).pending() == old(self).pending(),
            final(self).source() == old(self).source(),
    {
        proof {
            let log = self.log@;
            assert(log.push(IoEvent::Write(byte)).drop_last() =~= log);
            assert(text_of(writes(log).push(byte)) =~= text_of(writes(log)).push(shown(byte)));
        }
        push_char(&mut self.output, byte as char);
        self.log = Ghost(self.log@.push(IoEvent::Write(byte)));
    }
}

/// Has no input and drops what is written: for measuring a program that
/// reads nothing.
pub struct NoIO {
    log: Ghost<Seq<IoEvent>>,
}

impl NoIO {
    /// The capability with nothing read or written yet.
    pub fn new() -> (io: NoIO)
        ensures
            io.log() == Seq::<IoEvent>::empty(),
    {
        NoIO { log: Ghost(Seq::empty()) }
    }
}

impl Clone for NoIO {
    fn clone(&self) -> (io: NoIO)
        ensures
            io.log() == self.log(),
    {
        NoIO { log: Ghost(self.log@) }
    }
}

impl InputOutput for NoIO {
    closed spec fn log(&self) -> Seq<IoEvent> {
        self.log@
    }

    open spec fn inv(&self) -> bool {
        true
    }

    /// There is never any input.
    fn getch(&mut self) -> (byte: Option<u8>)
        ensures
            byte is None,
    {
        self.log = Ghost(self.log@.push(IoEvent::Read(None)));
        None
    }

    /// The byte is dropped.
    fn print(&mut self, byte: u8) {
        self.log = Ghost(self.log@.push(IoEvent::Write(byte)));
    }
}

} // verus!
