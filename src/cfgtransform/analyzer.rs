//! Reduction of a command log to its final register state, and regeneration of a minimal
//! command stream from that state.

use vstd::prelude::*;

use crate::cfgtransform::ast::{Command, WriteCommand};
pub use crate::ll::{BOOK_REGISTER, PAGE_REGISTER};

verus! {

/// Longest burst, in data bytes, that one command may carry.
pub const BURST_MAX_LEN: usize = 127;

/// Full address of one register in the banked register space.
#[derive(Debug, PartialEq, Eq, Structural, PartialOrd, Ord, Clone, Copy, Hash)]
pub struct RegisterAddress {
    pub book: u8,
    pub page: u8,
    pub register: u8,
}

/// The flat (register, value) writes of a write record: byte `i` goes to the register `i`
/// places after the first one, wrapping past 0xff.
pub open spec fn record_writes(record: (u8, Seq<u8>)) -> Seq<(u8, u8)> {
    Seq::new(record.1.len(), |i: int| ((((record.0 as int) + i) % 256) as u8, record.1[i]))
}

/// The first register and the data bytes of a command; a delay has neither.
pub open spec fn write_view(c: Command) -> (u8, Seq<u8>) {
    match c {
        Command::Write(w) => (w.register, w.bytes@),
        Command::Delay(_) => (0, Seq::empty()),
    }
}

/// The flat (register, value) writes that one command performs.
pub open spec fn command_writes(c: Command) -> Seq<(u8, u8)> {
    record_writes(write_view(c))
}

/// The flat writes of a command sequence, in order.
pub open spec fn flat_writes(cmds: Seq<Command>) -> Seq<(u8, u8)>
    decreases cmds.len(),
{
    if cmds.len() == 0 {
        Seq::empty()
    } else {
        command_writes(cmds[0]) + flat_writes(cmds.skip(1))
    }
}

/// The addressed writes of a flat write sequence that starts with `book` and `page`
/// selected: writes to the meta-registers change the selection and are not themselves
/// reported.
pub open spec fn addressed_writes(book: u8, page: u8, ws: Seq<(u8, u8)>) -> Seq<
    (RegisterAddress, u8),
>
    decreases ws.len(),
{
    if ws.len() == 0 {
        Seq::empty()
    } else {
        let (register, value) = ws[0];
        if register == PAGE_REGISTER {
            addressed_writes(book, value, ws.skip(1))
        } else if register == BOOK_REGISTER {
            addressed_writes(value, page, ws.skip(1))
        } else {
            seq![(RegisterAddress { book, page, register }, value)] + addressed_writes(
                book,
                page,
                ws.skip(1),
            )
        }
    }
}

/// What `analyze` reports for a command sequence: book 0 and page 0 are selected at the start.
pub open spec fn analysis(cmds: Seq<Command>) -> Seq<(RegisterAddress, u8)> {
    addressed_writes(0, 0, flat_writes(cmds))
}

/// The flat writes of a sequence of write records, in order.
pub open spec fn flat_records(records: Seq<(u8, Seq<u8>)>) -> Seq<(u8, u8)>
    decreases records.len(),
{
    if records.len() == 0 {
        Seq::empty()
    } else {
        record_writes(records[0]) + flat_records(records.skip(1))
    }
}

proof fn lemma_flat_writes_records(cmds: Seq<Command>)
    ensures
        flat_writes(cmds) == flat_records(cmds.map_values(|c: Command| write_view(c))),
    decreases cmds.len(),
{
    if cmds.len() > 0 {
        lemma_flat_writes_records(cmds.skip(1));
        assert(cmds.map_values(|c: Command| write_view(c)).skip(1) =~= cmds.skip(1).map_values(
            |c: Command| write_view(c),
        ));
    }
}

proof fn lemma_flat_writes_skip(cmds: Seq<Command>, i: int)
    requires
        0 <= i < cmds.len(),
    ensures
        flat_writes(cmds.skip(i)) == command_writes(cmds[i]) + flat_writes(cmds.skip(i + 1)),
{
    assert(cmds.skip(i).skip(1) =~= cmds.skip(i + 1));
}

/// Resolves every write of `cmds` to its full register address, following the book and page
/// selections made along the way; delays and the selections themselves are dropped.
pub fn analyze(cmds: &[Command]) -> (r: Vec<(RegisterAddress, u8)>)
    ensures
        r@ == analysis(cmds@),
{
    let mut book: u8 = 0;
    let mut page: u8 = 0;
    let mut out: Vec<(RegisterAddress, u8)> = Vec::new();
    let mut i: usize = 0;
    assert(cmds@.skip(0) =~= cmds@);
    assert(out@ + analysis(cmds@) =~= analysis(cmds@));
    while i < cmds.len()
        invariant
            0 <= i <= cmds.len(),
            out@ + addressed_writes(book, page, flat_writes(cmds@.skip(i as int))) == analysis(
                cmds@,
            ),
        decreases cmds.len() - i,
    {
        proof {
            lemma_flat_writes_skip(cmds@, i as int);
        }
        let ghost tail = flat_writes(cmds@.skip(i + 1));
        match &cmds[i] {
            Command::Write(w) => {
                let ghost cw = command_writes(cmds@[i as int]);
                let mut j: usize = 0;
                let mut register: u8 = w.register;
                assert(cw.skip(0) =~= cw);
                while j < w.bytes.len()
                    invariant
                        0 <= j <= w.bytes.len(),
                        register as int == (w.register as int + j) % 256,
                        cw == command_writes(Command::Write(*w)),
                        out@ + addressed_writes(book, page, cw.skip(j as int) + tail) == analysis(
                            cmds@,
                        ),
                    decreases w.bytes.len() - j,
                {
                    let value = w.bytes[j];
                    let ghost rest = cw.skip(j as int) + tail;
                    assert(rest[0] == (register, value));
                    assert(rest.skip(1) =~= cw.skip(j + 1) + tail);
                    if register == PAGE_REGISTER {
                        page = value;
                    } else if register == BOOK_REGISTER {
                        book = value;
                    } else {
                        let ghost before = out@;
                        out.push((RegisterAddress { book, page, register }, value));
                        assert(out@ + addressed_writes(book, page, rest.skip(1)) =~= before
                            + addressed_writes(book, page, rest));
                    }
                    register = if register == 255 {
                        0
                    } else {
                        register + 1
                    };
                    j += 1;
                }
                assert(cw.skip(j as int) + tail =~= tail);
            },
            Command::Delay(_) => {
                assert(command_writes(cmds@[i as int]) + tail =~= tail);
            },
        }
        i += 1;
    }
    assert(out@ + addressed_writes(book, page, flat_writes(cmds@.skip(i as int))) =~= out@);
    out
}

/// Whether entry `k` of `rest` may join the burst that starts at entry 0: same book and
/// page, the next register up, and the register before it is not the last one below the
/// book-select register (a burst must not run into it).
pub open spec fn continues_burst(rest: Seq<(RegisterAddress, u8)>, k: int) -> bool {
    &&& rest[k].0.book == rest[0].0.book
    &&& rest[k].0.page == rest[0].0.page
    &&& rest[k].0.register as int == rest[k - 1].0.register as int + 1
    &&& rest[k - 1].0.register as int != BOOK_REGISTER as int - 1
}

/// Length of the burst that starts at entry 0, given that its first `n` entries are taken.
pub open spec fn burst_len_from(rest: Seq<(RegisterAddress, u8)>, n: int) -> int
    decreases rest.len() - n,
{
    if 0 < n < rest.len() && n < BURST_MAX_LEN && continues_burst(rest, n) {
        burst_len_from(rest, n + 1)
    } else {
        n
    }
}

/// Length of the greedy burst that starts at entry 0: it grows while the next entry
/// continues it and fewer than 127 bytes are taken.
pub open spec fn burst_len(rest: Seq<(RegisterAddress, u8)>) -> int {
    burst_len_from(rest, 1)
}

/// The write record of the first `n` entries of `rest`, written as one burst.
pub open spec fn burst_record(rest: Seq<(RegisterAddress, u8)>, n: int) -> (u8, Seq<u8>) {
    (rest[0].0.register, Seq::new(n as nat, |k: int| rest[k].1))
}

/// Page-select and book-select steps still owed before the first entry of `rest` is written.
pub open spec fn pending_selects(
    prev_page: Option<u8>,
    prev_book: Option<u8>,
    rest: Seq<(RegisterAddress, u8)>,
) -> int {
    (if prev_page != Some(rest[0].0.page) {
        1int
    } else {
        0int
    }) + (if prev_book != Some(rest[0].0.book) {
        1int
    } else {
        0int
    })
}

/// A bound on the number of records still to come.
pub open spec fn regen_measure(
    prev_page: Option<u8>,
    prev_book: Option<u8>,
    rest: Seq<(RegisterAddress, u8)>,
) -> int {
    if rest.len() == 0 {
        0
    } else {
        3 * rest.len() + pending_selects(prev_page, prev_book, rest)
    }
}

/// The write records that regeneration emits for the entries `rest`, when the page and book
/// last selected are `prev_page` and `prev_book` (`None`: not known). A page change is
/// selected first, then a book change, then the longest burst is written. (The length test
/// on the burst always holds; it only makes the definition total.)
pub open spec fn regeneration(
    prev_page: Option<u8>,
    prev_book: Option<u8>,
    rest: Seq<(RegisterAddress, u8)>,
) -> Seq<(u8, Seq<u8>)>
    decreases regen_measure(prev_page, prev_book, rest),
{
    if rest.len() == 0 {
        Seq::empty()
    } else {
        let a = rest[0].0;
        if prev_page != Some(a.page) {
            seq![(PAGE_REGISTER, seq![a.page])] + regeneration(Some(a.page), prev_book, rest)
        } else if prev_book != Some(a.book) {
            seq![(BOOK_REGISTER, seq![a.book])] + regeneration(prev_page, Some(a.book), rest)
        } else {
            let n = burst_len(rest);
            if 1 <= n <= rest.len() {
                seq![burst_record(rest, n)] + regeneration(prev_page, prev_book, rest.skip(n))
            } else {
                seq![burst_record(rest, n)]
            }
        }
    }
}

proof fn lemma_burst_len_bounds(rest: Seq<(RegisterAddress, u8)>, n: int)
    requires
        1 <= n <= rest.len(),
        n <= BURST_MAX_LEN,
    ensures
        n <= burst_len_from(rest, n) <= rest.len(),
        burst_len_from(rest, n) <= BURST_MAX_LEN,
        forall|k: int| n <= k < burst_len_from(rest, n) ==> continues_burst(rest, k),
    decreases rest.len() - n,
{
    if n < rest.len() && n < BURST_MAX_LEN && continues_burst(rest, n) {
        lemma_burst_len_bounds(rest, n + 1);
    }
}

/// Generates a minimal command stream from register entries, which `collect` gathers.
pub struct RegenerateIterator {
    prev_book: Option<u8>,
    prev_page: Option<u8>,
    entries: Vec<(RegisterAddress, u8)>,
    pos: usize,
}

impl View for RegenerateIterator {
    /// The page and book last selected, and the entries not yet written.
    type V = (Option<u8>, Option<u8>, Seq<(RegisterAddress, u8)>);

    closed spec fn view(&self) -> Self::V {
        (self.prev_page, self.prev_book, self.entries@.skip(self.pos as int))
    }
}

/// Whether every command is a write, with the write records `records`.
pub open spec fn writes_match(cmds: Seq<Command>, records: Seq<(u8, Seq<u8>)>) -> bool {
    &&& cmds.len() == records.len()
    &&& forall|i: int| 0 <= i < cmds.len() ==> (cmds[i] is Write && write_view(cmds[i]) == records[i])
}

fn write_command(register: u8, bytes: Vec<u8>) -> (r: Command)
    ensures
        r is Write,
        write_view(r) == (register, bytes@),
{
    Command::Write(WriteCommand { address: 0, register, bytes })
}

fn select_command(register: u8, value: u8) -> (r: Command)
    ensures
        r is Write,
        write_view(r) == (register, seq![value]),
{
    let mut bytes: Vec<u8> = Vec::new();
    bytes.push(value);
    assert(bytes@ =~= seq![value]);
    write_command(register, bytes)
}

impl RegenerateIterator {
    #[verifier::type_invariant]
    spec fn inv(&self) -> bool {
        self.pos <= self.entries.len()
    }

    /// The next command: a page select when the next entry's page differs from the last one
    /// selected, else a book select when its book differs, else a write of the longest run of
    /// entries that continue one another (one register up, same book and page, at most 127,
    /// never running into the book-select register). Regenerated commands carry device
    /// address 0.
    pub fn next(&mut self) -> (r: Option<Command>)
        ensures
            old(self)@.2.len() == 0 ==> r is None && final(self)@ == old(self)@,
            old(self)@.2.len() > 0 ==> {
                &&& r matches Some(c)
                &&& c is Write
                &&& regeneration(old(self)@.0, old(self)@.1, old(self)@.2) == seq![write_view(c)]
                    + regeneration(final(self)@.0, final(self)@.1, final(self)@.2)
                &&& regen_measure(final(self)@.0, final(self)@.1, final(self)@.2) < regen_measure(
                    old(self)@.0,
                    old(self)@.1,
                    old(self)@.2,
                )
            },
            old(self)@.2.len() > 0 && old(self)@.0 != Some(old(self)@.2[0].0.page) ==> {
                &&& r matches Some(c)
                &&& write_view(c) == (PAGE_REGISTER, seq![old(self)@.2[0].0.page])
                &&& final(self)@ == (Some(old(self)@.2[0].0.page), old(self)@.1, old(self)@.2)
            },
            old(self)@.2.len() > 0 && old(self)@.0 == Some(old(self)@.2[0].0.page) && old(self)@.1
                != Some(old(self)@.2[0].0.book) ==> {
                &&& r matches Some(c)
                &&& write_view(c) == (BOOK_REGISTER, seq![old(self)@.2[0].0.book])
                &&& final(self)@ == (old(self)@.0, Some(old(self)@.2[0].0.book), old(self)@.2)
            },
            old(self)@.2.len() > 0 && old(self)@.0 == Some(old(self)@.2[0].0.page) && old(self)@.1
                == Some(old(self)@.2[0].0.book) ==> {
                &&& r matches Some(c)
                &&& write_view(c) == burst_record(old(self)@.2, burst_len(old(self)@.2))
                &&& 1 <= burst_len(old(self)@.2) <= old(self)@.2.len()
                &&& burst_len(old(self)@.2) <= BURST_MAX_LEN
                &&& final(self)@ == (
                    old(self)@.0,
                    old(self)@.1,
                    old(self)@.2.skip(burst_len(old(self)@.2)),
                )
            },
    {
        proof {
            use_type_invariant(&*self);
        }
        if self.pos >= self.entries.len() {
            return None;
        }
        let ghost rest = self.entries@.skip(self.pos as int);
        let (ra, value) = self.entries[self.pos];
        let book = ra.book;
        let page = ra.page;
        let page_known = match self.prev_page {
            Some(p) => p == page,
            None => false,
        };
        let book_known = match self.prev_book {
            Some(b) => b == book,
            None => false,
        };
        if !page_known {
            self.prev_page = Some(page);
            return Some(select_command(PAGE_REGISTER, page));
        }
        if !book_known {
            self.prev_book = Some(book);
            return Some(select_command(BOOK_REGISTER, book));
        }
        let first_register = ra.register;
        let mut prev_register = first_register;
        let mut bytes: Vec<u8> = Vec::new();
        bytes.push(value);
        let mut k: usize = self.pos + 1;
        proof {
            lemma_burst_len_bounds(rest, 1);
        }
        loop
            invariant
                self.pos < k <= self.entries.len(),
                k - self.pos <= BURST_MAX_LEN,
                rest == self.entries@.skip(self.pos as int),
                rest[0] == (ra, value),
                book == ra.book,
                page == ra.page,
                bytes@ =~= Seq::new((k - self.pos) as nat, |j: int| rest[j].1),
                prev_register == rest[k - self.pos - 1].0.register,
                burst_len(rest) == burst_len_from(rest, k - self.pos),
            ensures
                burst_len(rest) == k - self.pos,
            decreases self.entries.len() - k,
        {
            let ghost n = k - self.pos;
            if k - self.pos >= BURST_MAX_LEN || prev_register == BOOK_REGISTER - 1 || k
                >= self.entries.len() {
                assert(burst_len_from(rest, n) == n);
                break ;
            }
            let (next_ra, next_value) = self.entries[k];
            assert(rest[n] == (next_ra, next_value));
            if next_ra.register as u16 != prev_register as u16 + 1 || next_ra.book != book
                || next_ra.page != page {
                assert(!continues_burst(rest, n));
                assert(burst_len_from(rest, n) == n);
                break ;
            }
            assert(continues_burst(rest, n));
            assert(burst_len_from(rest, n) == burst_len_from(rest, n + 1));
            bytes.push(next_value);
            prev_register = next_ra.register;
            k += 1;
        }
        let ghost n = k - self.pos;
        assert(burst_len(rest) == n);
        assert(rest.skip(n) =~= self.entries@.skip(k as int));
        self.pos = k;
        Some(write_command(first_register, bytes))
    }

    /// All remaining commands, in order.
    pub fn collect(self) -> (r: Vec<Command>)
        ensures
            writes_match(r@, regeneration(self@.0, self@.1, self@.2)),
    {
        let mut it = self;
        let mut out: Vec<Command> = Vec::new();
        loop
            invariant
                forall|i: int| 0 <= i < out@.len() ==> out@[i] is Write,
                out@.map_values(|c: Command| write_view(c)) + regeneration(it@.0, it@.1, it@.2)
                    == regeneration(self@.0, self@.1, self@.2),
            decreases regen_measure(it@.0, it@.1, it@.2),
        {
            let ghost before = it@;
            match it.next() {
                Some(c) => {
                    let ghost prev = out@;
                    out.push(c);
                    assert(out@.map_values(|c: Command| write_view(c)) =~= prev.map_values(
                        |c: Command| write_view(c),
                    ).push(write_view(c)));
                    assert(out@.map_values(|c: Command| write_view(c)) + regeneration(
                        it@.0,
                        it@.1,
                        it@.2,
                    ) =~= prev.map_values(|c: Command| write_view(c)) + regeneration(
                        before.0,
                        before.1,
                        before.2,
                    ));
                },
                None => {
                    let ghost views = out@.map_values(|c: Command| write_view(c));
                    assert(views + regeneration(it@.0, it@.1, it@.2) =~= views);
                    return out;
                },
            }
        }
    }
}

/// Starts regeneration over `entries`, with no page or book known to be selected.
pub fn regenerate(entries: Vec<(RegisterAddress, u8)>) -> (r: RegenerateIterator)
    ensures
        r@ == (None::<u8>, None::<u8>, entries@),
{
    let r = RegenerateIterator { prev_book: None, prev_page: None, entries, pos: 0 };
    assert(r.entries@.skip(0) =~= entries@);
    r
}

/// Whether no entry is addressed to one of the meta-registers, which only select banks.
pub open spec fn no_meta_registers(entries: Seq<(RegisterAddress, u8)>) -> bool {
    forall|i: int|
        0 <= i < entries.len() ==> entries[i].0.register != PAGE_REGISTER
            && entries[i].0.register != BOOK_REGISTER
}

proof fn lemma_flat_records_cons(record: (u8, Seq<u8>), rest: Seq<(u8, Seq<u8>)>)
    ensures
        flat_records(seq![record] + rest) == record_writes(record) + flat_records(rest),
{
    assert((seq![record] + rest).skip(1) =~= rest);
}

proof fn lemma_addressed_plain(book: u8, page: u8, ws: Seq<(u8, u8)>, tail: Seq<(u8, u8)>)
    requires
        forall|i: int| 0 <= i < ws.len() ==> ws[i].0 != PAGE_REGISTER && ws[i].0 != BOOK_REGISTER,
    ensures
        addressed_writes(book, page, ws + tail) == Seq::new(
            ws.len(),
            |i: int| (RegisterAddress { book, page, register: ws[i].0 }, ws[i].1),
        ) + addressed_writes(book, page, tail),
    decreases ws.len(),
{
    if ws.len() > 0 {
        lemma_addressed_plain(book, page, ws.skip(1), tail);
        assert((ws + tail).skip(1) =~= ws.skip(1) + tail);
        assert((ws + tail)[0] == ws[0]);
        let f = |i: int| (RegisterAddress { book, page, register: ws[i].0 }, ws[i].1);
        let g = |i: int|
            (RegisterAddress { book, page, register: ws.skip(1)[i].0 }, ws.skip(1)[i].1);
        assert(Seq::new(ws.len(), f) =~= seq![f(0)] + Seq::new(ws.skip(1).len(), g));
    } else {
        assert(ws + tail =~= tail);
    }
}

proof fn lemma_burst_contiguous(rest: Seq<(RegisterAddress, u8)>, m: int)
    requires
        1 <= m <= rest.len(),
        forall|k: int| 1 <= k < m ==> continues_burst(rest, k),
    ensures
        forall|k: int|
            0 <= k < m ==> #[trigger] rest[k].0.register as int == rest[0].0.register as int + k
                && rest[k].0.book == rest[0].0.book && rest[k].0.page == rest[0].0.page,
    decreases m,
{
    if m > 1 {
        lemma_burst_contiguous(rest, m - 1);
        assert(continues_burst(rest, m - 1));
    }
}

proof fn lemma_regeneration_analysis(
    prev_page: Option<u8>,
    prev_book: Option<u8>,
    rest: Seq<(RegisterAddress, u8)>,
    book: u8,
    page: u8,
)
    requires
        no_meta_registers(rest),
        prev_page matches Some(p) ==> p == page,
        prev_book matches Some(b) ==> b == book,
    ensures
        addressed_writes(book, page, flat_records(regeneration(prev_page, prev_book, rest)))
            == rest,
    decreases regen_measure(prev_page, prev_book, rest),
{
    if rest.len() == 0 {
        assert(flat_records(Seq::<(u8, Seq<u8>)>::empty()) =~= Seq::<(u8, u8)>::empty());
        return ;
    }
    let a = rest[0].0;
    if prev_page != Some(a.page) {
        let record = (PAGE_REGISTER, seq![a.page]);
        let tail = regeneration(Some(a.page), prev_book, rest);
        lemma_regeneration_analysis(Some(a.page), prev_book, rest, book, a.page);
        lemma_flat_records_cons(record, tail);
        let ws = record_writes(record) + flat_records(tail);
        assert(ws[0] == (PAGE_REGISTER, a.page));
        assert(ws.skip(1) =~= flat_records(tail));
    } else if prev_book != Some(a.book) {
        let record = (BOOK_REGISTER, seq![a.book]);
        let tail = regeneration(prev_page, Some(a.book), rest);
        lemma_regeneration_analysis(prev_page, Some(a.book), rest, a.book, page);
        lemma_flat_records_cons(record, tail);
        let ws = record_writes(record) + flat_records(tail);
        assert(ws[0] == (BOOK_REGISTER, a.book));
        assert(ws.skip(1) =~= flat_records(tail));
    } else {
        let n = burst_len(rest);
        lemma_burst_len_bounds(rest, 1);
        lemma_burst_contiguous(rest, n);
        let record = burst_record(rest, n);
        let tail = regeneration(prev_page, prev_book, rest.skip(n));
        assert(no_meta_registers(rest.skip(n)));
        lemma_regeneration_analysis(prev_page, prev_book, rest.skip(n), book, page);
        lemma_flat_records_cons(record, tail);
        let ws = record_writes(record);
        assert forall|i: int| 0 <= i < ws.len() implies ws[i] == (
            rest[i].0.register,
            rest[i].1,
        ) by {
            assert(rest[i].0.register as int == a.register as int + i);
        }
        lemma_addressed_plain(book, page, ws, flat_records(tail));
        assert(Seq::new(
            ws.len(),
            |i: int| (RegisterAddress { book, page, register: ws[i].0 }, ws[i].1),
        ) =~= rest.take(n));
        assert(rest.take(n) + rest.skip(n) =~= rest);
    }
}

/// Whether `a` comes before `b` in address order: by book, then page, then register.
pub open spec fn address_lt(a: RegisterAddress, b: RegisterAddress) -> bool {
    ||| a.book < b.book
    ||| (a.book == b.book && a.page < b.page)
    ||| (a.book == b.book && a.page == b.page && a.register < b.register)
}

/// Whether the entries are in strictly ascending address order (so no address repeats).
pub open spec fn ascending(entries: Seq<(RegisterAddress, u8)>) -> bool {
    forall|i: int, j: int| 0 <= i < j < entries.len() ==> address_lt(entries[i].0, entries[j].0)
}

/// The mapping that entries with distinct addresses describe.
pub open spec fn entries_map(entries: Seq<(RegisterAddress, u8)>) -> Map<RegisterAddress, u8>
    decreases entries.len(),
{
    if entries.len() == 0 {
        Map::empty()
    } else {
        entries_map(entries.skip(1)).insert(entries[0].0, entries[0].1)
    }
}

/// The mapping `m` after the writes `ws`, applied in order: a later write to an address
/// replaces an earlier one.
pub open spec fn apply_writes(m: Map<RegisterAddress, u8>, ws: Seq<(RegisterAddress, u8)>) -> Map<
    RegisterAddress,
    u8,
>
    decreases ws.len(),
{
    if ws.len() == 0 {
        m
    } else {
        apply_writes(m.insert(ws[0].0, ws[0].1), ws.skip(1))
    }
}

/// The final value of each address written by `ws` (last write wins).
pub open spec fn last_writes(ws: Seq<(RegisterAddress, u8)>) -> Map<RegisterAddress, u8> {
    apply_writes(Map::empty(), ws)
}

proof fn lemma_entries_map(entries: Seq<(RegisterAddress, u8)>)
    requires
        ascending(entries),
    ensures
        forall|i: int|
            0 <= i < entries.len() ==> entries_map(entries).contains_key(#[trigger] entries[i].0)
                && entries_map(entries)[entries[i].0] == entries[i].1,
        forall|a: RegisterAddress| #[trigger]
            entries_map(entries).contains_key(a) ==> exists|i: int|
                0 <= i < entries.len() && entries[i].0 == a,
    decreases entries.len(),
{
    if entries.len() > 0 {
        let tail = entries.skip(1);
        lemma_entries_map(tail);
        let first = entries[0];
        assert forall|i: int|
            0 <= i < entries.len() implies entries_map(entries).contains_key(
            #[trigger] entries[i].0) && entries_map(entries)[entries[i].0] == entries[i].1 by {
            if i > 0 {
                assert(address_lt(first.0, entries[i].0));
                assert(tail[i - 1] == entries[i]);
                assert(entries_map(tail).contains_key(tail[i - 1].0));
            }
        }
        assert forall|a: RegisterAddress| #[trigger]
            entries_map(entries).contains_key(a) implies exists|i: int|
            0 <= i < entries.len() && entries[i].0 == a by {
            if a != first.0 {
                assert(entries_map(tail).contains_key(a));
                let j = choose|j: int| 0 <= j < tail.len() && tail[j].0 == a;
                assert(entries[j + 1].0 == a);
            } else {
                assert(entries[0].0 == a);
            }
        }
    }
}

proof fn lemma_apply_ascending(m: Map<RegisterAddress, u8>, entries: Seq<(RegisterAddress, u8)>)
    requires
        ascending(entries),
    ensures
        apply_writes(m, entries) == m.union_prefer_right(entries_map(entries)),
    decreases entries.len(),
{
    if entries.len() == 0 {
        assert(m.union_prefer_right(entries_map(entries)) =~= m);
    } else {
        let tail = entries.skip(1);
        let (a, v) = entries[0];
        lemma_apply_ascending(m.insert(a, v), tail);
        lemma_entries_map(tail);
        assert(!entries_map(tail).contains_key(a)) by {
            if entries_map(tail).contains_key(a) {
                let j = choose|j: int| 0 <= j < tail.len() && tail[j].0 == a;
                assert(address_lt(entries[0].0, entries[j + 1].0));
            }
        }
        assert(m.insert(a, v).union_prefer_right(entries_map(tail)) =~= m.union_prefer_right(
            entries_map(tail).insert(a, v),
        ));
    }
}

/// Deduplicating a canonical state's own entries gives back that state: last-write-wins over
/// entries with distinct addresses is the mapping they describe.
pub proof fn lemma_dedup_canonical(entries: Seq<(RegisterAddress, u8)>)
    requires
        ascending(entries),
    ensures
        last_writes(entries) == entries_map(entries),
{
    lemma_apply_ascending(Map::empty(), entries);
    assert(Map::<RegisterAddress, u8>::empty().union_prefer_right(entries_map(entries))
        =~= entries_map(entries));
}

/// The canonical register state: the final value of each written address, kept in address
/// order.
///
/// The entries sit in a vector sorted by address rather than in an ordered map: regeneration
/// walks them in address order and takes them as a slice, so the order is kept as this type's
/// invariant and handed out directly, not recovered from a map iterator.
#[derive(Debug, PartialEq, Eq)]
pub struct RegisterState {
    entries: Vec<(RegisterAddress, u8)>,
}

impl View for RegisterState {
    type V = Map<RegisterAddress, u8>;

    closed spec fn view(&self) -> Self::V {
        entries_map(self.entries@)
    }
}

fn address_less(a: &RegisterAddress, b: &RegisterAddress) -> (r: bool)
    ensures
        r == address_lt(*a, *b),
{
    a.book < b.book || (a.book == b.book && a.page < b.page) || (a.book == b.book && a.page
        == b.page && a.register < b.register)
}

impl RegisterState {
    #[verifier::type_invariant]
    spec fn inv(&self) -> bool {
        ascending(self.entries@)
    }

    /// An empty state.
    pub fn new() -> (r: Self)
        ensures
            r@ == Map::<RegisterAddress, u8>::empty(),
    {
        RegisterState { entries: Vec::new() }
    }

    /// The entries, in ascending address order, one per address.
    pub fn entries(&self) -> (r: &[(RegisterAddress, u8)])
        ensures
            ascending(r@),
            entries_map(r@) == self@,
    {
        proof {
            use_type_invariant(self);
        }
        self.entries.as_slice()
    }

    /// The number of addresses that hold a value.
    pub fn len(&self) -> (r: usize)
        ensures
            r == self@.len(),
    {
        proof {
            use_type_invariant(self);
            lemma_entries_map_len(self.entries@);
        }
        self.entries.len()
    }

    /// The value held for `address`, if any.
    pub fn get(&self, address: &RegisterAddress) -> (r: Option<u8>)
        ensures
            r == (if self@.contains_key(*address) {
                Some(self@[*address])
            } else {
                None
            }),
    {
        proof {
            use_type_invariant(self);
            lemma_entries_map(self.entries@);
        }
        let mut i: usize = 0;
        while i < self.entries.len()
            invariant
                0 <= i <= self.entries.len(),
                ascending(self.entries@),
                forall|j: int| 0 <= j < i ==> self.entries@[j].0 != *address,
            decreases self.entries.len() - i,
        {
            if self.entries[i].0 == *address {
                proof {
                    lemma_entries_map(self.entries@);
                    assert(self.entries@[i as int].0 == *address);
                }
                return Some(self.entries[i].1);
            }
            i += 1;
        }
        proof {
            lemma_entries_map(self.entries@);
            if self@.contains_key(*address) {
                let j = choose|j: int|
                    0 <= j < self.entries@.len() && self.entries@[j].0 == *address;
                assert(self.entries@[j].0 != *address);
            }
        }
        None
    }

    /// Sets the value of `address`, replacing any earlier one.
    pub fn insert(&mut self, address: RegisterAddress, value: u8)
        ensures
            final(self)@ == old(self)@.insert(address, value),
    {
        proof {
            use_type_invariant(&*self);
        }
        let ghost old_entries = self.entries@;
        let mut taken = RegisterState::new();
        core::mem::swap(self, &mut taken);
        let mut entries = taken.entries;
        let mut p: usize = 0;
        while p < entries.len() && address_less(&entries[p].0, &address)
            invariant
                0 <= p <= entries.len(),
                entries@ == old_entries,
                forall|j: int| 0 <= j < p ==> address_lt(old_entries[j].0, address),
            decreases entries.len() - p,
        {
            p += 1;
        }
        if p < entries.len() && entries[p].0 == address {
            proof {
                lemma_map_after_update(old_entries, p as int, address, value);
            }
            entries.set(p, (address, value));
        } else {
            proof {
                if p < old_entries.len() {
                    assert(old_entries[p as int].0 != address);
                    assert(!address_lt(old_entries[p as int].0, address));
                }
                lemma_map_after_insert(old_entries, p as int, address, value);
            }
            entries.insert(p, (address, value));
        }
        *self = RegisterState { entries };
    }
}

proof fn lemma_map_after_update(
    old_entries: Seq<(RegisterAddress, u8)>,
    p: int,
    address: RegisterAddress,
    value: u8,
)
    requires
        ascending(old_entries),
        0 <= p < old_entries.len(),
        old_entries[p].0 == address,
    ensures
        ascending(old_entries.update(p, (address, value))),
        entries_map(old_entries.update(p, (address, value))) == entries_map(old_entries).insert(
            address,
            value,
        ),
{
    lemma_entries_map(old_entries);
    let m0 = entries_map(old_entries);
    let updated = old_entries.update(p, (address, value));
    assert forall|i: int, j: int|
        0 <= i < j < updated.len() implies address_lt(
        #[trigger] updated[i].0,
        #[trigger] updated[j].0,
    ) by {
        assert(address_lt(old_entries[i].0, old_entries[j].0));
    }
    lemma_entries_map(updated);
    let m1 = entries_map(updated);
    assert forall|k: RegisterAddress|
        #![trigger m1.dom().contains(k)]
        #![trigger m0.insert(address, value).dom().contains(k)]
        m1.contains_key(k) == m0.insert(address, value).contains_key(k) && (
        m1.contains_key(k) ==> m1[k] == m0.insert(address, value)[k]) by {
        if k == address {
            assert(updated[p].0 == address);
        } else {
            if m1.contains_key(k) {
                let i = choose|i: int| 0 <= i < updated.len() && updated[i].0 == k;
                assert(old_entries[i] == updated[i]);
            }
            if m0.contains_key(k) {
                let i = choose|i: int|
                    0 <= i < old_entries.len() && old_entries[i].0 == k;
                assert(old_entries[i] == updated[i]);
            }
        }
    }
    assert(m1 =~= m0.insert(address, value));
}

proof fn lemma_map_after_insert(
    old_entries: Seq<(RegisterAddress, u8)>,
    p: int,
    address: RegisterAddress,
    value: u8,
)
    requires
    ascending(old_entries),
    0 <= p <= old_entries.len(),
    forall|j: int| 0 <= j < p ==> address_lt(old_entries[j].0, address),
    p < old_entries.len() ==> address_lt(address, old_entries[p].0),
    ensures
    ascending(old_entries.insert(p, (address, value))),
    entries_map(old_entries.insert(p, (address, value))) == entries_map(old_entries).insert(
        address,
        value,
    ),
{
    lemma_entries_map(old_entries);
    let m0 = entries_map(old_entries);
    let inserted = old_entries.insert(p, (address, value));
    let n = old_entries.len() as int;
    let pp = p;
    if pp < n {
        assert(address_lt(address, old_entries[pp].0));
    }
    assert forall|i: int, j: int|
        0 <= i < j < inserted.len() implies address_lt(
        #[trigger] inserted[i].0,
        #[trigger] inserted[j].0,
    ) by {
        if j < pp {
            assert(address_lt(old_entries[i].0, old_entries[j].0));
        } else if j == pp {
            assert(address_lt(old_entries[i].0, address));
        } else if i < pp {
            assert(address_lt(old_entries[i].0, old_entries[j - 1].0));
        } else if i == pp {
            if j - 1 > pp {
                assert(address_lt(old_entries[pp].0, old_entries[j - 1].0));
            }
        } else {
            assert(address_lt(old_entries[i - 1].0, old_entries[j - 1].0));
        }
    }
    lemma_entries_map(inserted);
    let m1 = entries_map(inserted);
    assert(inserted[pp] == (address, value));
    assert forall|k: RegisterAddress|
        #![trigger m1.dom().contains(k)]
        #![trigger m0.insert(address, value).dom().contains(k)]
        m1.contains_key(k) == m0.insert(address, value).contains_key(k) && (
        m1.contains_key(k) ==> m1[k] == m0.insert(address, value)[k]) by {
        if k == address {
            assert(m1.contains_key(inserted[pp].0));
        } else {
            if m1.contains_key(k) {
                let i = choose|i: int| 0 <= i < inserted.len() && inserted[i].0 == k;
                assert(i != pp);
                let j = if i < pp {
                    i
                } else {
                    i - 1
                };
                assert(inserted[i] == old_entries[j]);
                assert(m0.contains_key(old_entries[j].0));
                assert(m1[inserted[i].0] == inserted[i].1);
            }
            if m0.contains_key(k) {
                let i = choose|i: int|
                    0 <= i < old_entries.len() && old_entries[i].0 == k;
                let j = if i < pp {
                    i
                } else {
                    i + 1
                };
                assert(inserted[j] == old_entries[i]);
                assert(m1.contains_key(inserted[j].0));
            }
        }
    }
    assert(m1 =~= m0.insert(address, value));
}

proof fn lemma_entries_map_len(entries: Seq<(RegisterAddress, u8)>)
    requires
        ascending(entries),
    ensures
        entries_map(entries).len() == entries.len(),
        entries_map(entries).dom().finite(),
    decreases entries.len(),
{
    if entries.len() > 0 {
        let tail = entries.skip(1);
        lemma_entries_map_len(tail);
        lemma_entries_map(tail);
        assert(!entries_map(tail).contains_key(entries[0].0)) by {
            if entries_map(tail).contains_key(entries[0].0) {
                let j = choose|j: int| 0 <= j < tail.len() && tail[j].0 == entries[0].0;
                assert(address_lt(entries[0].0, entries[j + 1].0));
            }
        }
    }
}

/// Folds addressed writes into the canonical state: a later write to an address replaces an
/// earlier one.
pub fn dedup(writes: &[(RegisterAddress, u8)]) -> (r: RegisterState)
    ensures
        r@ == last_writes(writes@),
{
    let mut state = RegisterState::new();
    let mut i: usize = 0;
    assert(writes@.skip(0) =~= writes@);
    while i < writes.len()
        invariant
            0 <= i <= writes.len(),
            apply_writes(state@, writes@.skip(i as int)) == last_writes(writes@),
        decreases writes.len() - i,
    {
        let (address, value) = writes[i];
        assert(writes@.skip(i as int).skip(1) =~= writes@.skip(i + 1));
        state.insert(address, value);
        i += 1;
    }
    state
}

proof fn lemma_addressed_no_meta(book: u8, page: u8, ws: Seq<(u8, u8)>)
    ensures
        no_meta_registers(addressed_writes(book, page, ws)),
    decreases ws.len(),
{
    if ws.len() > 0 {
        let (register, value) = ws[0];
        if register == PAGE_REGISTER {
            lemma_addressed_no_meta(book, value, ws.skip(1));
        } else if register == BOOK_REGISTER {
            lemma_addressed_no_meta(value, page, ws.skip(1));
        } else {
            lemma_addressed_no_meta(book, page, ws.skip(1));
        }
    }
}

proof fn lemma_apply_writes_keys(m: Map<RegisterAddress, u8>, ws: Seq<(RegisterAddress, u8)>)
    ensures
        forall|k: RegisterAddress| #[trigger]
            apply_writes(m, ws).contains_key(k) ==> m.contains_key(k) || exists|i: int|
                0 <= i < ws.len() && ws[i].0 == k,
    decreases ws.len(),
{
    if ws.len() > 0 {
        let tail = ws.skip(1);
        lemma_apply_writes_keys(m.insert(ws[0].0, ws[0].1), tail);
        assert forall|k: RegisterAddress| #[trigger]
            apply_writes(m, ws).contains_key(k) implies m.contains_key(k) || exists|i: int|
            0 <= i < ws.len() && ws[i].0 == k by {
            assert(apply_writes(m, ws) == apply_writes(m.insert(ws[0].0, ws[0].1), tail));
            assert(apply_writes(m.insert(ws[0].0, ws[0].1), tail).contains_key(k));
            if !m.contains_key(k) && k != ws[0].0 {
                let j = choose|j: int| 0 <= j < tail.len() && tail[j].0 == k;
                assert(ws[j + 1].0 == k);
            } else if k == ws[0].0 {
                assert(ws[0].0 == k);
            }
        }
    }
}

/// Round trip: analyzing and deduplicating the commands regenerated from a canonical state
/// gives back that state. (Entries at the meta-register indices are left out: analysis
/// reads writes there as bank selections, never as register values.)
pub proof fn lemma_round_trip(entries: Seq<(RegisterAddress, u8)>, cmds: Seq<Command>)
    requires
        ascending(entries),
        no_meta_registers(entries),
        writes_match(cmds, regeneration(None, None, entries)),
    ensures
        last_writes(analysis(cmds)) == entries_map(entries),
{
    lemma_flat_writes_records(cmds);
    assert(cmds.map_values(|c: Command| write_view(c)) =~= regeneration(None, None, entries));
    lemma_regeneration_analysis(None, None, entries, 0, 0);
    lemma_dedup_canonical(entries);
}

/// Analysis followed by deduplication is idempotent: regenerating commands from its result,
/// then analyzing and deduplicating those, gives the same state again.
pub proof fn lemma_dedup_idempotent(
    cmds: Seq<Command>,
    entries: Seq<(RegisterAddress, u8)>,
    regenerated: Seq<Command>,
)
    requires
        ascending(entries),
        entries_map(entries) == last_writes(analysis(cmds)),
        writes_match(regenerated, regeneration(None, None, entries)),
    ensures
        last_writes(analysis(regenerated)) == last_writes(analysis(cmds)),
{
    let ws = analysis(cmds);
    lemma_addressed_no_meta(0, 0, flat_writes(cmds));
    lemma_apply_writes_keys(Map::empty(), ws);
    lemma_entries_map(entries);
    assert forall|i: int| 0 <= i < entries.len() implies #[trigger] entries[i].0.register
        != PAGE_REGISTER && entries[i].0.register != BOOK_REGISTER by {
        assert(last_writes(ws).contains_key(entries[i].0));
        let j = choose|j: int| 0 <= j < ws.len() && ws[j].0 == entries[i].0;
        assert(ws[j].0.register != PAGE_REGISTER);
    }
    lemma_round_trip(entries, regenerated);
}

} // verus!
