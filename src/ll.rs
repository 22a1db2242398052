//! Low level interface for the TAS2563 chipset providing register access.
//!
//! Bus transfers are left to the caller: the device handle says which bank-select write an
//! access still needs, and records each one that went through.

pub mod i2c;
pub mod spi;

use vstd::prelude::*;

use crate::bulk::burst_writes;

verus! {

/// Flat index of the page-select meta-register.
pub const PAGE_REGISTER: u8 = 0x00;

/// Flat index of the book-select meta-register.
pub const BOOK_REGISTER: u8 = 0x7f;

/// A TAS2563 behind the transport `T`, with the bank it last selected.
pub struct Tas2563Device<T> {
    iface: T,
    last_page: Option<u8>,
    last_book: Option<u8>,
}

/// Full address of one register in the banked register space.
#[derive(Debug, PartialEq, Eq, Structural, Clone, Copy)]
pub struct RegisterAddress {
    pub book: u8,
    pub page: u8,
    pub register: u8,
}

/// The address that a 32-bit register address stands for: its bytes, most significant
/// first, are unused, book, page and register.
pub open spec fn address_of(value: u32) -> RegisterAddress {
    RegisterAddress {
        book: ((value as int / 65536) % 256) as u8,
        page: ((value as int / 256) % 256) as u8,
        register: (value as int % 256) as u8,
    }
}

/// The 32-bit form of an address: book, page and register as its three low bytes.
pub open spec fn address_value(address: RegisterAddress) -> u32 {
    (address.book as int * 65536 + address.page as int * 256 + address.register as int) as u32
}

impl From<u32> for RegisterAddress {
    fn from(value: u32) -> Self {
        RegisterAddress {
            book: ((value / 65536) % 256) as u8,
            page: ((value / 256) % 256) as u8,
            register: (value % 256) as u8,
        }
    }
}

impl vstd::std_specs::convert::FromSpecImpl<u32> for RegisterAddress {
    open spec fn obeys_from_spec() -> bool {
        true
    }

    open spec fn from_spec(v: u32) -> Self {
        address_of(v)
    }
}

impl From<RegisterAddress> for u32 {
    fn from(address: RegisterAddress) -> Self {
        address.book as u32 * 65536 + address.page as u32 * 256 + address.register as u32
    }
}

impl vstd::std_specs::convert::FromSpecImpl<RegisterAddress> for u32 {
    open spec fn obeys_from_spec() -> bool {
        true
    }

    open spec fn from_spec(v: RegisterAddress) -> Self {
        address_value(v)
    }
}

/// The bank-select write still owed before an access to `address`, given the page and book
/// last selected (`None`: not known): the page select comes first, then the book select;
/// `None` once both are selected.
pub open spec fn pending_bank_write(
    last_page: Option<u8>,
    last_book: Option<u8>,
    address: RegisterAddress,
) -> Option<(u8, u8)> {
    if last_page != Some(address.page) {
        Some((PAGE_REGISTER, address.page))
    } else if last_book != Some(address.book) {
        Some((BOOK_REGISTER, address.book))
    } else {
        None
    }
}

/// The page and book known to be selected once `value` was written to flat `register`.
pub open spec fn after_bank_write(
    last_page: Option<u8>,
    last_book: Option<u8>,
    register: u8,
    value: u8,
) -> (Option<u8>, Option<u8>) {
    if register == PAGE_REGISTER {
        (Some(value), last_book)
    } else if register == BOOK_REGISTER {
        (last_page, Some(value))
    } else {
        (last_page, last_book)
    }
}

impl<T> View for Tas2563Device<T> {
    /// The page and book last selected; `None` where not known.
    type V = (Option<u8>, Option<u8>);

    closed spec fn view(&self) -> Self::V {
        (self.last_page, self.last_book)
    }
}

impl<T> Tas2563Device<T> {
    /// The transport the device is reached through.
    pub closed spec fn transport(&self) -> T {
        self.iface
    }

    /// A device behind `iface`, with no bank known to be selected.
    pub fn new(iface: T) -> (r: Self)
        ensures
            r@ == (None::<u8>, None::<u8>),
            r.transport() == iface,
    {
        Tas2563Device { iface, last_page: None, last_book: None }
    }

    /// Direct access to the transport. Writes made through it bypass the bank cache.
    pub fn interface(&mut self) -> (r: &mut T)
        ensures
            *r == old(self).transport(),
            final(self).transport() == *final(r),
            final(self)@ == old(self)@,
    {
        &mut self.iface
    }

    /// Gives up the transport.
    pub fn into_interface(self) -> (r: T)
        ensures
            r == self.transport(),
    {
        self.iface
    }

    /// Forgets the selected bank, so that the next access selects page and book again; for
    /// use when the chip may have changed it (after a reset, say).
    pub fn reset_assumptions(&mut self)
        ensures
            final(self)@ == (None::<u8>, None::<u8>),
            final(self).transport() == old(self).transport(),
    {
        self.last_book = None;
        self.last_page = None;
    }

    /// The bank-select write, as (flat register, value), that must go to the bus before an
    /// access to `address`, or `None` when its bank is selected already.
    pub fn next_bank_write(&self, address: &RegisterAddress) -> (r: Option<(u8, u8)>)
        ensures
            r == pending_bank_write(self@.0, self@.1, *address),
    {
        let page_known = match self.last_page {
            Some(p) => p == address.page,
            None => false,
        };
        let book_known = match self.last_book {
            Some(b) => b == address.book,
            None => false,
        };
        if !page_known {
            Some((PAGE_REGISTER, address.page))
        } else if !book_known {
            Some((BOOK_REGISTER, address.book))
        } else {
            None
        }
    }

    /// Records that `value` was written to flat `register`; a write to a meta-register
    /// changes the bank known to be selected. Call it only for writes that went through.
    pub fn bank_written(&mut self, register: u8, value: u8)
        ensures
            final(self)@ == after_bank_write(old(self)@.0, old(self)@.1, register, value),
            final(self).transport() == old(self).transport(),
    {
        if register == PAGE_REGISTER {
            self.last_page = Some(value);
        } else if register == BOOK_REGISTER {
            self.last_book = Some(value);
        }
    }

    /// Records that the burst `data` (start register, then values) went through: the bank
    /// selects among its writes change the bank known to be selected, in order.
    pub fn bank_burst_written(&mut self, data: &[u8])
        requires
            data@.len() >= 1,
        ensures
            final(self)@ == bank_after_writes(old(self)@.0, old(self)@.1, burst_writes(data@)),
            final(self).transport() == old(self).transport(),
    {
        let ghost ws = burst_writes(data@);
        let mut i: usize = 1;
        assert(ws.skip(0) =~= ws);
        while i < data.len()
            invariant
                1 <= i <= data.len(),
                ws == burst_writes(data@),
                self.transport() == old(self).transport(),
                bank_after_writes(self@.0, self@.1, ws.skip(i - 1)) == bank_after_writes(
                    old(self)@.0,
                    old(self)@.1,
                    ws,
                ),
            decreases data.len() - i,
        {
            let register = ((data[0] as usize + (i - 1) % 256) % 256) as u8;
            assert(((data@[0] as int + (i - 1) % 256) % 256) == ((data@[0] as int + (i - 1))
                % 256)) by (nonlinear_arith);
            assert(ws.skip(i - 1)[0] == (register, data@[i as int]));
            assert(ws.skip(i - 1).skip(1) =~= ws.skip(i as int));
            self.bank_written(register, data[i]);
            i += 1;
        }
        assert(ws.skip(i - 1).len() == 0);
    }
}

/// The (register, value) writes of `values` to the registers counting up from `register`,
/// one register each, in order: how a transport without burst support sends a burst.
pub open spec fn consecutive_writes_of(register: u8, values: Seq<u8>) -> Seq<(u8, u8)> {
    Seq::new(values.len(), |i: int| ((register as int + i) as u8, values[i]))
}

/// Splits a write of `values` from `register` upward into single-register writes.
pub fn consecutive_writes(register: u8, values: &[u8]) -> (r: Vec<(u8, u8)>)
    requires
        register as int + values@.len() <= 256,
    ensures
        r@ == consecutive_writes_of(register, values@),
{
    let mut out: Vec<(u8, u8)> = Vec::new();
    let mut i: usize = 0;
    while i < values.len()
        invariant
            0 <= i <= values.len(),
            register as int + values@.len() <= 256,
            out@ =~= consecutive_writes_of(register, values@).take(i as int),
        decreases values.len() - i,
    {
        out.push((register + i as u8, values[i]));
        i += 1;
    }
    assert(consecutive_writes_of(register, values@).take(i as int) =~= consecutive_writes_of(
        register,
        values@,
    ));
    out
}

/// The bank-select writes that go out before an access to `address`, in order: each one
/// that `pending_bank_write` asks for, until it asks for none.
pub open spec fn access_bank_writes(
    last_page: Option<u8>,
    last_book: Option<u8>,
    address: RegisterAddress,
) -> Seq<(u8, u8)>
    decreases (if last_page != Some(address.page) {
        1int
    } else {
        0int
    }) + (if last_book != Some(address.book) {
        1int
    } else {
        0int
    }),
{
    match pending_bank_write(last_page, last_book, address) {
        None => Seq::empty(),
        Some(w) => {
            let (page, book) = after_bank_write(last_page, last_book, w.0, w.1);
            seq![w] + access_bank_writes(page, book, address)
        },
    }
}

/// The page and book known to be selected after the writes `ws` went through.
pub open spec fn bank_after_writes(
    last_page: Option<u8>,
    last_book: Option<u8>,
    ws: Seq<(u8, u8)>,
) -> (Option<u8>, Option<u8>)
    decreases ws.len(),
{
    if ws.len() == 0 {
        (last_page, last_book)
    } else {
        let (page, book) = after_bank_write(last_page, last_book, ws[0].0, ws[0].1);
        bank_after_writes(page, book, ws.skip(1))
    }
}

/// The bank-select writes for accesses to `addresses` in order, when every write goes through.
pub open spec fn accesses_bank_writes(
    last_page: Option<u8>,
    last_book: Option<u8>,
    addresses: Seq<RegisterAddress>,
) -> Seq<(u8, u8)>
    decreases addresses.len(),
{
    if addresses.len() == 0 {
        Seq::empty()
    } else {
        let ws = access_bank_writes(last_page, last_book, addresses[0]);
        let (page, book) = bank_after_writes(last_page, last_book, ws);
        ws + accesses_bank_writes(page, book, addresses.skip(1))
    }
}

/// How often the page changes along `addresses`, counting from `last_page` (where `None`,
/// the first address counts as a change).
pub open spec fn page_changes(last_page: Option<u8>, addresses: Seq<RegisterAddress>) -> nat
    decreases addresses.len(),
{
    if addresses.len() == 0 {
        0
    } else {
        (if last_page != Some(addresses[0].page) {
            1nat
        } else {
            0nat
        }) + page_changes(Some(addresses[0].page), addresses.skip(1))
    }
}

/// How often the book changes along `addresses`, counting from `last_book` (where `None`,
/// the first address counts as a change).
pub open spec fn book_changes(last_book: Option<u8>, addresses: Seq<RegisterAddress>) -> nat
    decreases addresses.len(),
{
    if addresses.len() == 0 {
        0
    } else {
        (if last_book != Some(addresses[0].book) {
            1nat
        } else {
            0nat
        }) + book_changes(Some(addresses[0].book), addresses.skip(1))
    }
}

/// How many of the writes `ws` go to flat `register`.
pub open spec fn writes_to(ws: Seq<(u8, u8)>, register: u8) -> nat
    decreases ws.len(),
{
    if ws.len() == 0 {
        0
    } else {
        (if ws[0].0 == register {
            1nat
        } else {
            0nat
        }) + writes_to(ws.skip(1), register)
    }
}

/// Whether every write of `ws` goes to one of the two bank-select registers.
pub open spec fn only_bank_selects(ws: Seq<(u8, u8)>) -> bool {
    forall|i: int|
        0 <= i < ws.len() ==> #[trigger] ws[i].0 == PAGE_REGISTER || ws[i].0 == BOOK_REGISTER
}

proof fn lemma_writes_to_concat(a: Seq<(u8, u8)>, b: Seq<(u8, u8)>, register: u8)
    ensures
        writes_to(a + b, register) == writes_to(a, register) + writes_to(b, register),
    decreases a.len(),
{
    if a.len() == 0 {
        assert(a + b =~= b);
    } else {
        lemma_writes_to_concat(a.skip(1), b, register);
        assert((a + b).skip(1) =~= a.skip(1) + b);
    }
}

proof fn lemma_access_bank_writes(
    last_page: Option<u8>,
    last_book: Option<u8>,
    address: RegisterAddress,
)
    ensures
        writes_to(access_bank_writes(last_page, last_book, address), PAGE_REGISTER) == if last_page
            != Some(address.page) {
            1nat
        } else {
            0nat
        },
        writes_to(access_bank_writes(last_page, last_book, address), BOOK_REGISTER) == if last_book
            != Some(address.book) {
            1nat
        } else {
            0nat
        },
        only_bank_selects(access_bank_writes(last_page, last_book, address)),
        bank_after_writes(last_page, last_book, access_bank_writes(last_page, last_book, address))
            == (Some(address.page), Some(address.book)),
    decreases (if last_page != Some(address.page) {
        1int
    } else {
        0int
    }) + (if last_book != Some(address.book) {
        1int
    } else {
        0int
    }),
{
    match pending_bank_write(last_page, last_book, address) {
        None => {},
        Some(w) => {
            let (page, book) = after_bank_write(last_page, last_book, w.0, w.1);
            lemma_access_bank_writes(page, book, address);
            let ws = access_bank_writes(last_page, last_book, address);
            let rest = access_bank_writes(page, book, address);
            assert(ws.skip(1) =~= rest);
            assert(ws =~= seq![w] + rest);
            lemma_writes_to_concat(seq![w], rest, PAGE_REGISTER);
            lemma_writes_to_concat(seq![w], rest, BOOK_REGISTER);
            assert(seq![w].skip(1) =~= Seq::<(u8, u8)>::empty());
            assert forall|i: int| 0 <= i < ws.len() implies #[trigger] ws[i].0 == PAGE_REGISTER
                || ws[i].0 == BOOK_REGISTER by {
                if i > 0 {
                    assert(ws[i] == rest[i - 1]);
                }
            }
        },
    }
}

/// Bank-cache minimality: accessing a sequence of addresses, each access's bank-select writes
/// all going through, writes one page select per change of page and one book select per
/// change of book (the first access counting as a change of both when nothing is known),
/// and nothing else, however many addresses share a bank.
pub proof fn lemma_bank_writes_minimal(
    last_page: Option<u8>,
    last_book: Option<u8>,
    addresses: Seq<RegisterAddress>,
)
    ensures
        writes_to(accesses_bank_writes(last_page, last_book, addresses), PAGE_REGISTER)
            == page_changes(last_page, addresses),
        writes_to(accesses_bank_writes(last_page, last_book, addresses), BOOK_REGISTER)
            == book_changes(last_book, addresses),
        only_bank_selects(accesses_bank_writes(last_page, last_book, addresses)),
        accesses_bank_writes(last_page, last_book, addresses).len() == page_changes(
            last_page,
            addresses,
        ) + book_changes(last_book, addresses),
    decreases addresses.len(),
{
    let all = accesses_bank_writes(last_page, last_book, addresses);
    if addresses.len() == 0 {
        return ;
    }
    let a = addresses[0];
    let first = access_bank_writes(last_page, last_book, a);
    let rest = accesses_bank_writes(Some(a.page), Some(a.book), addresses.skip(1));
    lemma_access_bank_writes(last_page, last_book, a);
    lemma_bank_writes_minimal(Some(a.page), Some(a.book), addresses.skip(1));
    assert(all == first + rest);
    lemma_writes_to_concat(first, rest, PAGE_REGISTER);
    lemma_writes_to_concat(first, rest, BOOK_REGISTER);
    assert forall|i: int| 0 <= i < all.len() implies #[trigger] all[i].0 == PAGE_REGISTER
        || all[i].0 == BOOK_REGISTER by {
        if i < first.len() {
            assert(all[i] == first[i]);
        } else {
            assert(all[i] == rest[i - first.len()]);
        }
    }
    lemma_only_bank_selects_len(all);
}

proof fn lemma_only_bank_selects_len(ws: Seq<(u8, u8)>)
    requires
        only_bank_selects(ws),
    ensures
        ws.len() == writes_to(ws, PAGE_REGISTER) + writes_to(ws, BOOK_REGISTER),
    decreases ws.len(),
{
    if ws.len() > 0 {
        assert forall|i: int| 0 <= i < ws.skip(1).len() implies #[trigger] ws.skip(1)[i].0
            == PAGE_REGISTER || ws.skip(1)[i].0 == BOOK_REGISTER by {
            assert(ws.skip(1)[i] == ws[i + 1]);
        }
        lemma_only_bank_selects_len(ws.skip(1));
        assert(ws[0].0 == PAGE_REGISTER || ws[0].0 == BOOK_REGISTER);
    }
}

} // verus!
