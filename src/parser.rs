use vstd::prelude::*;
use vstd::slice::slice_subrange;

use crate::command::{le_u32, parse_u32, Command, CommandView};

verus! {

/// Size of the parser's buffer: a 4-byte address and a 512-byte flash page,
/// with room to spare.
pub const BUFFER_SIZE: usize = 520;

/// The byte that introduces a command code, or a literal escape byte when doubled.
pub const ESCAPE: u8 = 0xFC;

/// Number of data bytes in one flash page.
pub const PAGE_SIZE: usize = 512;

/// Number of bytes in an address field.
pub const ADDRESS_SIZE: usize = 4;

/// Command code of `Ping`.
pub const CODE_PING: u8 = 0x01;

/// Command code of `Info`.
pub const CODE_INFO: u8 = 0x03;

/// Command code of `Reset`.
pub const CODE_RESET: u8 = 0x05;

/// Command code of `ErasePage`: four address bytes precede it.
pub const CODE_ERASE_PAGE: u8 = 0x06;

/// Command code of `WritePage`: four address bytes and a page of data precede it.
pub const CODE_WRITE_PAGE: u8 = 0x07;

/// What the parser makes of the next byte.
#[derive(PartialEq, Eq, Structural, Clone, Copy, Debug)]
pub enum State {
    /// Bytes are data and go to the buffer.
    Loading,
    /// The previous byte was the escape byte: the next one is a command code.
    Escape,
}

/// The abstract state of a parser: its mode and the bytes buffered so far.
pub struct ParserView {
    pub state: State,
    pub buffered: Seq<u8>,
}

/// The buffer after a data byte: the byte is appended while there is room,
/// and dropped once the buffer is full.
pub open spec fn load(buffered: Seq<u8>, b: u8) -> Seq<u8> {
    if buffered.len() < BUFFER_SIZE {
        buffered.push(b)
    } else {
        buffered
    }
}

/// The command decoded from `code` after an escape byte, given the bytes
/// buffered; `None` for the escape byte itself and for unknown codes.
pub open spec fn decode(buffered: Seq<u8>, code: u8) -> Option<CommandView> {
    let n = buffered.len() as int;
    if code == CODE_PING {
        Some(CommandView::Ping)
    } else if code == CODE_INFO {
        Some(CommandView::Info)
    } else if code == CODE_RESET {
        Some(CommandView::Reset)
    } else if code == CODE_ERASE_PAGE {
        if n >= ADDRESS_SIZE {
            Some(CommandView::ErasePage(le_u32(buffered.subrange(n - ADDRESS_SIZE, n))))
        } else {
            Some(CommandView::BadCommand)
        }
    } else if code == CODE_WRITE_PAGE {
        if n >= ADDRESS_SIZE + PAGE_SIZE {
            Some(
                CommandView::WritePage(
                    le_u32(buffered.subrange(n - (ADDRESS_SIZE + PAGE_SIZE), n - PAGE_SIZE)),
                    buffered.subrange(n - PAGE_SIZE, n),
                ),
            )
        } else {
            Some(CommandView::BadCommand)
        }
    } else {
        None
    }
}

/// What a parser in state `v` emits when it receives `b`.
pub open spec fn emitted(v: ParserView, b: u8) -> Option<CommandView> {
    match v.state {
        State::Loading => None,
        State::Escape => if b == ESCAPE {
            None
        } else {
            decode(v.buffered, b)
        },
    }
}

/// The state of a parser in state `v` after it receives `b`.
pub open spec fn next(v: ParserView, b: u8) -> ParserView {
    match v.state {
        State::Loading => if b == ESCAPE {
            ParserView { state: State::Escape, buffered: v.buffered }
        } else {
            ParserView { state: State::Loading, buffered: load(v.buffered, b) }
        },
        State::Escape => if b == ESCAPE {
            ParserView { state: State::Loading, buffered: load(v.buffered, b) }
        } else if decode(v.buffered, b) is Some {
            ParserView { state: State::Loading, buffered: Seq::empty() }
        } else {
            ParserView { state: State::Loading, buffered: v.buffered }
        },
    }
}

/// The mathematical value of an optional command.
pub open spec fn view_of(r: Option<Command>) -> Option<CommandView> {
    match r {
        Some(c) => Some(c@),
        None => None,
    }
}

/// The Parser takes bytes and gives you `Command`s.
pub struct Parser {
    state: State,
    buffer: [u8; BUFFER_SIZE],
    count: usize,
}

impl View for Parser {
    type V = ParserView;

    closed spec fn view(&self) -> ParserView {
        ParserView { state: self.state, buffered: self.buffer@.subrange(0, self.count as int) }
    }
}

impl Parser {
    #[verifier::type_invariant]
    spec fn inv(self) -> bool {
        self.count <= BUFFER_SIZE
    }

    /// A parser in the loading state with an empty buffer.
    pub fn new() -> (p: Parser)
        ensures
            p@.state == State::Loading,
            p@.buffered == Seq::<u8>::empty(),
    {
        let p = Parser { state: State::Loading, buffer: [0u8; BUFFER_SIZE], count: 0 };
        assert(p@.buffered =~= Seq::<u8>::empty());
        p
    }

    /// Appends `ch` to the buffer if there is room, drops it otherwise.
    fn load_char(&mut self, ch: u8)
        ensures
            final(self)@.state == old(self)@.state,
            final(self)@.buffered == load(old(self)@.buffered, ch),
    {
        proof {
            use_type_invariant(&*self);
        }
        if self.count < BUFFER_SIZE {
            self.buffer[self.count] = ch;
            self.count = self.count + 1;
        }
        assert(self@.buffered =~= load(old(self)@.buffered, ch));
    }

    /// Feeds one byte to the parser. Returns the command that this byte
    /// completes, if any.
    pub fn receive(&mut self, ch: u8) -> (r: Option<Command<'_>>)
        ensures
            final(self)@ == next(old(self)@, ch),
            view_of(r) == emitted(old(self)@, ch),
            final(self)@.buffered.len() <= BUFFER_SIZE,
    {
        match self.state {
            State::Loading => self.handle_loading(ch),
            State::Escape => self.handle_escape(ch),
        }
    }

    fn handle_loading(&mut self, ch: u8) -> (r: Option<Command<'_>>)
        requires
            old(self)@.state == State::Loading,
        ensures
            final(self)@ == next(old(self)@, ch),
            view_of(r) == emitted(old(self)@, ch),
            final(self)@.buffered.len() <= BUFFER_SIZE,
    {
        proof {
            use_type_invariant(&*self);
        }
        if ch == ESCAPE {
            self.state = State::Escape;
        } else {
            self.load_char(ch);
        }
        None
    }

    fn handle_escape(&mut self, ch: u8) -> (r: Option<Command<'_>>)
        requires
            old(self)@.state == State::Escape,
        ensures
            final(self)@ == next(old(self)@, ch),
            view_of(r) == emitted(old(self)@, ch),
            final(self)@.buffered.len() <= BUFFER_SIZE,
    {
        proof {
            use_type_invariant(&*self);
        }
        self.state = State::Loading;
        let ghost buffered = self@.buffered;
        let n = self.count;
        let result = match ch {
            ESCAPE => {
                // A doubled escape byte stands for itself.
                self.load_char(ch);
                None
            },
            CODE_PING => Some(Command::Ping),
            CODE_INFO => Some(Command::Info),
            CODE_RESET => Some(Command::Reset),
            CODE_ERASE_PAGE => {
                if n >= ADDRESS_SIZE {
                    let addr = parse_u32(self.buffer.as_slice(), n - ADDRESS_SIZE);
                    assert(self.buffer@.subrange(n - 4, n as int) =~= buffered.subrange(n - 4, n as int));
                    Some(Command::ErasePage(addr))
                } else {
                    Some(Command::BadCommand)
                }
            },
            CODE_WRITE_PAGE => {
                if n >= ADDRESS_SIZE + PAGE_SIZE {
                    let start = n - (ADDRESS_SIZE + PAGE_SIZE);
                    let addr = parse_u32(self.buffer.as_slice(), start);
                    let data = slice_subrange(self.buffer.as_slice(), start + ADDRESS_SIZE, n);
                    assert(self.buffer@.subrange(start as int, start + 4) =~= buffered.subrange(n - 516, n - 512));
                    assert(data@ =~= buffered.subrange(n - 512, n as int));
                    Some(Command::WritePage(addr, data))
                } else {
                    Some(Command::BadCommand)
                }
            },
            _ => None,
        };
        if result.is_some() {
            self.count = 0;
            assert(self@.buffered =~= Seq::<u8>::empty());
        }
        result
    }
}

} // verus!
