//! Decoding of the bulk binary stream that the device replays at boot.
//!
//! A record is either a single write `[register, value]` or a burst
//! `[0xfd, n, register, v_0, .., v_{n-1}]`, followed by one padding byte when `n` is even,
//! so that every record spans a whole number of 16-bit words.

use vstd::prelude::*;

verus! {

/// Marker byte that opens a burst record.
pub const CFG_META_BURST: u8 = 253;

/// A write of one value to one flat register.
#[derive(Debug, PartialEq, Eq, Structural, Clone, Copy)]
pub struct RegisterWrite {
    pub register: u8,
    pub value: u8,
}

/// One decoded record.
#[derive(Debug, PartialEq, Eq)]
pub enum Command<'a> {
    WriteSingle(RegisterWrite),
    WriteBurst(BurstCommand<'a>),
}

/// Decoder over a bulk stream; each call of `next` yields one record.
#[derive(Debug, PartialEq, Eq)]
pub struct CommandIterator<'a> {
    commands: &'a [u8],
}

/// A burst write, as sent on the bus.
#[derive(Debug, PartialEq, Eq)]
pub struct BurstCommand<'a> {
    /// Bytes to send as one burst write: the first is the starting register, the others
    /// are the values of consecutive registers from there.
    pub data: &'a [u8],
}

/// Why a bulk stream is malformed.
#[derive(Debug, PartialEq, Eq, Structural, Clone, Copy)]
pub enum FramingError {
    /// One byte is left where a record needs at least two.
    TrailingByte,
    /// A burst header declares more bytes than the stream has left.
    TruncatedBurst,
}

/// Bytes taken by the record at the front of `s`, read from its first two bytes: two for a
/// single write; for a burst, the header, the start register, `n` values and the padding
/// byte that follows an even `n`.
pub open spec fn record_len(s: Seq<u8>) -> int {
    if s[0] == CFG_META_BURST {
        3 + s[1] + if s[1] % 2 == 0 {
            1int
        } else {
            0int
        }
    } else {
        2
    }
}

/// The (register, value) writes of burst data: a start register, then the values of the
/// registers counting up from it (wrapping past 0xff).
pub open spec fn burst_writes(data: Seq<u8>) -> Seq<(u8, u8)> {
    Seq::new(
        (data.len() - 1) as nat,
        |i: int| ((((data[0] as int) + i) % 256) as u8, data[i + 1]),
    )
}

/// The burst data of the burst record at the front of `s`.
pub open spec fn record_burst_data(s: Seq<u8>) -> Seq<u8> {
    s.subrange(2, 3 + s[1])
}

/// The (register, value) writes of the record at the front of `s`.
pub open spec fn record_writes(s: Seq<u8>) -> Seq<(u8, u8)> {
    if s[0] == CFG_META_BURST {
        burst_writes(record_burst_data(s))
    } else {
        seq![(s[0], s[1])]
    }
}

/// The (register, value) writes of a whole stream, in order, or `None` when the stream is
/// malformed.
pub open spec fn decoded_writes(s: Seq<u8>) -> Option<Seq<(u8, u8)>>
    decreases s.len(),
{
    if s.len() == 0 {
        Some(Seq::empty())
    } else if s.len() < 2 || s.len() < record_len(s) {
        None
    } else {
        match decoded_writes(s.skip(record_len(s))) {
            Some(rest) => Some(record_writes(s) + rest),
            None => None,
        }
    }
}

/// The (register, value) writes of a decoded record.
pub open spec fn command_writes(c: Command) -> Seq<(u8, u8)> {
    match c {
        Command::WriteSingle(w) => seq![(w.register, w.value)],
        Command::WriteBurst(b) => burst_writes(b.data@),
    }
}

impl<'a> View for CommandIterator<'a> {
    /// The bytes not yet decoded.
    type V = Seq<u8>;

    closed spec fn view(&self) -> Seq<u8> {
        self.commands@
    }
}

impl<'a> CommandIterator<'a> {
    pub fn new(commands: &'a [u8]) -> (r: Self)
        ensures
            r@ == commands@,
    {
        Self { commands }
    }

    /// Decodes the next record. At the end of the stream it returns `None`; on a malformed
    /// stream it returns the error once and then nothing more.
    pub fn next(&mut self) -> (r: Option<Result<Command<'a>, FramingError>>)
        ensures
            old(self)@.len() == 0 ==> r is None && final(self)@ == old(self)@,
            old(self)@.len() == 1 ==> r == Some(Err::<Command<'a>, FramingError>(
                FramingError::TrailingByte,
            )) && final(self)@.len() == 0,
            old(self)@.len() >= 2 && old(self)@.len() < record_len(old(self)@) ==> r == Some(
                Err::<Command<'a>, FramingError>(FramingError::TruncatedBurst),
            ) && final(self)@.len() == 0,
            old(self)@.len() >= 2 && old(self)@.len() >= record_len(old(self)@) ==> {
                &&& r matches Some(Ok(c))
                &&& command_writes(c) == record_writes(old(self)@)
                &&& final(self)@ == old(self)@.skip(record_len(old(self)@))
                &&& old(self)@[0] == CFG_META_BURST ==> (c matches Command::WriteBurst(b)
                    && b.data@ == record_burst_data(old(self)@))
                &&& old(self)@[0] != CFG_META_BURST ==> c == Command::WriteSingle(
                    RegisterWrite { register: old(self)@[0], value: old(self)@[1] },
                )
            },
    {
        let s = self.commands;
        if s.len() == 0 {
            return None;
        }
        if s.len() == 1 {
            self.commands = s.split_at(1).1;
            return Some(Err(FramingError::TrailingByte));
        }
        if s[0] == CFG_META_BURST {
            let n = s[1] as usize;
            let total: usize = if n % 2 == 0 {
                n + 4
            } else {
                n + 3
            };
            if s.len() < total {
                self.commands = s.split_at(s.len()).1;
                return Some(Err(FramingError::TruncatedBurst));
            }
            let (record, remainder) = s.split_at(total);
            let data = record.split_at(2).1.split_at(n + 1).0;
            assert(data@ =~= record_burst_data(s@));
            self.commands = remainder;
            Some(Ok(Command::WriteBurst(BurstCommand { data })))
        } else {
            let write = RegisterWrite { register: s[0], value: s[1] };
            self.commands = s.split_at(2).1;
            Some(Ok(Command::WriteSingle(write)))
        }
    }
}

/// `writes` prefixed by `done`, or `None` when `writes` is.
pub open spec fn prefixed(done: Seq<(u8, u8)>, writes: Option<Seq<(u8, u8)>>) -> Option<
    Seq<(u8, u8)>,
> {
    match writes {
        Some(w) => Some(done + w),
        None => None,
    }
}

fn push_command_writes(out: &mut Vec<(u8, u8)>, c: &Command)
    requires
        c matches Command::WriteBurst(b) ==> b.data@.len() >= 1,
    ensures
        final(out)@ == old(out)@ + command_writes(*c),
{
    match c {
        Command::WriteSingle(w) => {
            out.push((w.register, w.value));
            assert(final(out)@ =~= old(out)@ + command_writes(*c));
        },
        Command::WriteBurst(b) => {
            let data = b.as_burst();
            let ghost base = out@;
            let mut i: usize = 1;
            while i < data.len()
                invariant
                    1 <= i <= data.len(),
                    data@ == b.data@,
                    out@ =~= base + burst_writes(data@).take(i - 1),
                decreases data.len() - i,
            {
                out.push((((data[0] as usize + (i - 1) % 256) % 256) as u8, data[i]));
                assert(((data@[0] as int + (i - 1) % 256) % 256) == ((data@[0] as int + (i - 1))
                    % 256)) by (nonlinear_arith);
                assert(burst_writes(data@).take(i as int) =~= burst_writes(data@).take(i - 1).push(
                    burst_writes(data@)[i - 1],
                ));
                i += 1;
            }
            assert(burst_writes(data@).take(i - 1) =~= burst_writes(data@));
        },
    }
}

impl<'a> CommandIterator<'a> {
    /// Decodes the rest of the stream into its (register, value) writes, in order: a single
    /// write gives one, a burst one per value, counting up from its start register. Fails
    /// exactly when the stream is malformed.
    pub fn writes(self) -> (r: Result<Vec<(u8, u8)>, FramingError>)
        ensures
            r matches Ok(v) ==> decoded_writes(self@) == Some(v@),
            r is Err <==> decoded_writes(self@) is None,
    {
        let mut it = self;
        let mut out: Vec<(u8, u8)> = Vec::new();
        assert(prefixed(out@, decoded_writes(it@)) =~= decoded_writes(self@)) by {
            if let Some(w) = decoded_writes(self@) {
                assert(out@ + w =~= w);
            }
        }
        loop
            invariant
                prefixed(out@, decoded_writes(it@)) == decoded_writes(self@),
            decreases it@.len(),
        {
            let ghost before = it@;
            let ghost done = out@;
            match it.next() {
                None => {
                    assert(done + Seq::<(u8, u8)>::empty() =~= done);
                    return Ok(out);
                },
                Some(Err(e)) => {
                    return Err(e);
                },
                Some(Ok(c)) => {
                    push_command_writes(&mut out, &c);
                    assert(decoded_writes(before) == prefixed(record_writes(before), decoded_writes(
                        it@,
                    )));
                    proof {
                        if let Some(w) = decoded_writes(it@) {
                            assert(done + (record_writes(before) + w) =~= out@ + w);
                        }
                    }
                },
            }
        }
    }
}

impl<'a> BurstCommand<'a> {
    /// The bytes of the burst as sent on the bus: start register, then values.
    pub fn as_burst(&self) -> (r: &[u8])
        ensures
            r@ == self.data@,
    {
        self.data
    }
}

} // verus!
