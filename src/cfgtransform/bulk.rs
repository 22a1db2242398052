//! Encoding of configuration commands into the bulk binary stream.

use vstd::prelude::*;

use crate::bulk::{decoded_writes, record_len, record_writes, CFG_META_BURST};
use crate::cfgtransform::analyzer::{flat_writes, write_view, BURST_MAX_LEN};
use crate::cfgtransform::ast::Command;

verus! {

/// The bulk encoding of a write of `bytes` starting at `register`: `[register, value]` for a
/// single byte; otherwise `[0xfd, n, register]`, the `n` bytes,
/// and a zero padding byte when `n` is even, so that the stream stays made of 16-bit words.
pub open spec fn encode_record(register: u8, bytes: Seq<u8>) -> Seq<u8> {
    if bytes.len() == 1 {
        seq![register, bytes[0]]
    } else {
        seq![CFG_META_BURST, bytes.len() as u8, register] + bytes + if bytes.len() % 2 == 0 {
            seq![0u8]
        } else {
            Seq::empty()
        }
    }
}

/// The bulk encoding of one command; a delay takes no bytes.
pub open spec fn encode_command(c: Command) -> Seq<u8> {
    match c {
        Command::Write(w) => encode_record(w.register, w.bytes@),
        Command::Delay(_) => Seq::empty(),
    }
}

/// The bulk encoding of a command sequence: the encodings of its commands, in order.
pub open spec fn encoding(cmds: Seq<Command>) -> Seq<u8>
    decreases cmds.len(),
{
    if cmds.len() == 0 {
        Seq::empty()
    } else {
        encode_command(cmds[0]) + encoding(cmds.skip(1))
    }
}

/// Whether a command writes more bytes than one burst may carry.
pub open spec fn too_long(c: Command) -> bool {
    c is Write && write_view(c).1.len() > BURST_MAX_LEN
}

/// Whether a command is a one-byte write to register 0xfd, the burst marker: its record would
/// read back as a burst header, so it cannot be encoded.
pub open spec fn reserved_single(c: Command) -> bool {
    c is Write && write_view(c).1.len() == 1 && write_view(c).0 == CFG_META_BURST
}

/// Whether a command can be encoded.
pub open spec fn encodable(c: Command) -> bool {
    !too_long(c) && !reserved_single(c)
}

/// A write that is longer than a burst may be.
#[derive(Debug, PartialEq, Eq, Structural, Clone, Copy)]
pub struct AddressOverflowError {
    /// Position of the write in the command sequence.
    pub index: usize,
    /// Number of bytes it writes.
    pub len: usize,
}

/// Why a command sequence cannot be encoded; nothing is encoded then.
#[derive(Debug, PartialEq, Eq, Structural, Clone, Copy)]
pub enum GenerateError {
    /// A write is longer than a burst may be.
    AddressOverflow(AddressOverflowError),
    /// A one-byte write goes to register 0xfd, which marks bursts in the stream.
    ReservedRegister { index: usize },
}

/// Position of the command that an error is about.
pub open spec fn error_index(e: GenerateError) -> int {
    match e {
        GenerateError::AddressOverflow(o) => o.index as int,
        GenerateError::ReservedRegister { index } => index as int,
    }
}

/// Generator of bulk register-write streams with burst transfers.
pub struct BulkGenerator;

fn push_record(out: &mut Vec<u8>, register: u8, bytes: &Vec<u8>)
    requires
        bytes@.len() <= BURST_MAX_LEN,
    ensures
        final(out)@ == old(out)@ + encode_record(register, bytes@),
{
    let n = bytes.len();
    if n == 1 {
        out.push(register);
        out.push(bytes[0]);
        assert(final(out)@ =~= old(out)@ + encode_record(register, bytes@));
        return ;
    }
    out.push(CFG_META_BURST);
    out.push(n as u8);
    out.push(register);
    let ghost header = old(out)@ + seq![CFG_META_BURST, n as u8, register];
    assert(out@ =~= header);
    let mut i: usize = 0;
    while i < n
        invariant
            0 <= i <= n,
            n == bytes@.len(),
            out@ =~= header + bytes@.take(i as int),
        decreases n - i,
    {
        out.push(bytes[i]);
        assert(bytes@.take(i + 1) =~= bytes@.take(i as int).push(bytes@[i as int]));
        i += 1;
    }
    assert(bytes@.take(n as int) =~= bytes@);
    if n % 2 == 0 {
        out.push(0);
    }
    assert(out@ =~= old(out)@ + encode_record(register, bytes@));
}

impl BulkGenerator {
    /// Encodes `commands` as a bulk stream, or reports the first command that cannot be
    /// encoded: a write longer than a burst may be, or a one-byte write to register 0xfd.
    pub fn generate(commands: &[Command]) -> (r: Result<Vec<u8>, GenerateError>)
        ensures
            r matches Ok(bytes) ==> {
                &&& forall|i: int| 0 <= i < commands@.len() ==> encodable(#[trigger] commands@[i])
                &&& bytes@ == encoding(commands@)
                &&& bytes@.len() % 2 == 0
            },
            r matches Err(e) ==> {
                &&& 0 <= error_index(e) < commands@.len()
                &&& forall|i: int| 0 <= i < error_index(e) ==> encodable(#[trigger] commands@[i])
                &&& !encodable(commands@[error_index(e)])
                &&& e matches GenerateError::AddressOverflow(o) ==> too_long(
                    commands@[error_index(e)],
                ) && o.len == write_view(commands@[error_index(e)]).1.len()
                &&& e is ReservedRegister ==> !too_long(commands@[error_index(e)]) && reserved_single(
                    commands@[error_index(e)],
                )
            },
    {
        let mut out: Vec<u8> = Vec::new();
        let mut i: usize = 0;
        assert(commands@.skip(0) =~= commands@);
        while i < commands.len()
            invariant
                0 <= i <= commands.len(),
                out@ + encoding(commands@.skip(i as int)) == encoding(commands@),
                forall|j: int| 0 <= j < i ==> encodable(#[trigger] commands@[j]),
            decreases commands.len() - i,
        {
            assert(commands@.skip(i as int).skip(1) =~= commands@.skip(i + 1));
            let ghost before = out@;
            match &commands[i] {
                Command::Write(w) => {
                    if w.bytes.len() > BURST_MAX_LEN {
                        return Err(
                            GenerateError::AddressOverflow(
                                AddressOverflowError { index: i, len: w.bytes.len() },
                            ),
                        );
                    }
                    if w.bytes.len() == 1 && w.register == CFG_META_BURST {
                        return Err(GenerateError::ReservedRegister { index: i });
                    }
                    push_record(&mut out, w.register, &w.bytes);
                },
                Command::Delay(_) => {},
            }
            assert(out@ + encoding(commands@.skip(i + 1)) =~= before + encoding(
                commands@.skip(i as int),
            ));
            i += 1;
        }
        assert(out@ + encoding(commands@.skip(i as int)) =~= out@);
        proof {
            lemma_encoding_even(commands@);
        }
        Ok(out)
    }
}

/// Every encoded stream has an even length: each record spans whole 16-bit words.
pub proof fn lemma_encoding_even(cmds: Seq<Command>)
    ensures
        encoding(cmds).len() % 2 == 0,
    decreases cmds.len(),
{
    if cmds.len() > 0 {
        lemma_encoding_even(cmds.skip(1));
    }
}

/// Codec round trip: decoding the encoding of commands yields their flat (register, value)
/// writes, in order, for every command sequence that `generate` encodes; only the grouping
/// into single and burst records may differ. (`CommandIterator::writes` returns exactly
/// `decoded_writes` of its stream.)
pub proof fn lemma_codec_round_trip(cmds: Seq<Command>)
    requires
        forall|i: int| 0 <= i < cmds.len() ==> encodable(#[trigger] cmds[i]),
    ensures
        decoded_writes(encoding(cmds)) == Some(flat_writes(cmds)),
    decreases cmds.len(),
{
    if cmds.len() == 0 {
        return ;
    }
    let tail = cmds.skip(1);
    assert forall|i: int| 0 <= i < tail.len() implies encodable(#[trigger] tail[i]) by {
        assert(tail[i] == cmds[i + 1]);
    }
    lemma_codec_round_trip(tail);
    let head = encode_command(cmds[0]);
    let rest = encoding(tail);
    let s = head + rest;
    assert(encodable(cmds[0]));
    match cmds[0] {
        Command::Delay(_) => {
            assert(s =~= rest);
            assert(flat_writes(cmds) =~= flat_writes(tail));
        },
        Command::Write(w) => {
            let bytes = w.bytes@;
            let n = bytes.len();
            assert(record_len(s) == head.len());
            assert(s.skip(record_len(s)) =~= rest);
            if n == 1 {
                assert(record_writes(s) =~= crate::cfgtransform::analyzer::command_writes(
                    cmds[0],
                ));
            } else {
                assert(s.subrange(2, 3 + s[1]) =~= seq![w.register] + bytes);
                assert(record_writes(s) =~= crate::cfgtransform::analyzer::command_writes(
                    cmds[0],
                ));
            }
        },
    }
}

} // verus!
