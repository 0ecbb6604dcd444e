//! An SD card driver that queues its reads and writes instead of waiting on the
//! device: each call is put on a bounded queue of 32 calls, to be carried out when the
//! device interrupts.
#![allow(non_camel_case_types)]

use vstd::prelude::*;

use heapless::Deque;

verus! {

#[verifier::external_type_specification]
#[verifier::external_body]
#[verifier::reject_recursive_types(T)]
pub struct ExDeque<T, const N: usize>(Deque<T, N>);

/// Whether a queued call reads or writes.
pub enum IO_CallType {
    Read,
    Write,
}

/// A queued call: its kind and the 512 bytes it carries.
pub struct IO_Call {
    call_type: IO_CallType,
    bytes: [u8; 512],
}

impl IO_Call {
    /// The call reads.
    pub closed spec fn is_read(self) -> bool {
        self.call_type is Read
    }

    /// The bytes the call carries.
    pub closed spec fn data(self) -> Seq<u8> {
        self.bytes@
    }
}

/// The calls a queue holds, oldest first.
pub uninterp spec fn queued(q: Deque<IO_Call, 32>) -> Seq<IO_Call>;

/// `heapless::Deque::new`: an empty queue.
#[verifier::external_body]
fn deque_new() -> (q: Deque<IO_Call, 32>)
    ensures
        queued(q) == Seq::<IO_Call>::empty(),
{
    Deque::new()
}

/// `heapless::Deque::push_back`: a full queue (32 items) hands the item back and stays as
/// it was; any other takes it at the back. It does not panic.
#[verifier::external_body]
fn deque_push_back(q: &mut Deque<IO_Call, 32>, item: IO_Call) -> (r: Result<(), IO_Call>)
    ensures
        queued(*old(q)).len() < 32 ==> r is Ok && queued(*final(q)) == queued(*old(q)).push(item),
        queued(*old(q)).len() >= 32 ==> r is Err && r->Err_0 == item && queued(*final(q)) == queued(
            *old(q),
        ),
    no_unwind
{
    q.push_back(item)
}

/// The driver: the calls waiting for the device.
pub struct SD_Driver {
    queue: Deque<IO_Call, 32>,
}

impl SD_Driver {
    /// The calls waiting, oldest first.
    pub closed spec fn calls(self) -> Seq<IO_Call> {
        queued(self.queue)
    }

    /// At most 32 calls wait.
    #[verifier::type_invariant]
    closed spec fn bounded(self) -> bool {
        queued(self.queue).len() <= 32
    }

    /// Queues a read carrying `bytes`; a full queue hands the call back.
    pub fn single_read(&mut self, bytes: [u8; 512]) -> (r: Result<(), IO_Call>)
        ensures
            old(self).calls().len() < 32 ==> {
                &&& r is Ok
                &&& final(self).calls().len() == old(self).calls().len() + 1
                &&& final(self).calls().take(old(self).calls().len() as int) == old(self).calls()
                &&& final(self).calls().last().is_read()
                &&& final(self).calls().last().data() == bytes@
            },
            old(self).calls().len() >= 32 ==> {
                &&& r is Err
                &&& r->Err_0.is_read()
                &&& r->Err_0.data() == bytes@
                &&& final(self).calls() == old(self).calls()
            },
    {
        proof {
            use_type_invariant(&*self);
        }
        let call = IO_Call { call_type: IO_CallType::Read, bytes: bytes };
        let r = deque_push_back(&mut self.queue, call);
        proof {
            assert(self.calls().take(old(self).calls().len() as int) =~= old(self).calls());
        }
        r
    }

    /// Queues a write carrying `bytes`; a full queue hands the call back.
    pub fn single_write(&mut self, bytes: [u8; 512]) -> (r: Result<(), IO_Call>)
        ensures
            old(self).calls().len() < 32 ==> {
                &&& r is Ok
                &&& final(self).calls().len() == old(self).calls().len() + 1
                &&& final(self).calls().take(old(self).calls().len() as int) == old(self).calls()
                &&& !final(self).calls().last().is_read()
                &&& final(self).calls().last().data() == bytes@
            },
            old(self).calls().len() >= 32 ==> {
                &&& r is Err
                &&& !r->Err_0.is_read()
                &&& r->Err_0.data() == bytes@
                &&& final(self).calls() == old(self).calls()
            },
    {
        proof {
            use_type_invariant(&*self);
        }
        let call = IO_Call { call_type: IO_CallType::Write, bytes: bytes };
        let r = deque_push_back(&mut self.queue, call);
        proof {
            assert(self.calls().take(old(self).calls().len() as int) =~= old(self).calls());
        }
        r
    }
}

/// A driver with no call waiting.
pub fn new() -> (d: SD_Driver)
    ensures
        d.calls() == Seq::<IO_Call>::empty(),
{
    SD_Driver { queue: deque_new() }
}

/// The device's interrupt handler; it has nothing to do yet.
pub fn interrupt_handler() {
}

} // verus!
