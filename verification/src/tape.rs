//! Straight-line code over a register machine, and the machine that the host drives.
//!
//! Every node has a data register and a gradient register; two more registers hold
//! intermediate results. The machine executes a constant load by itself. For every other
//! instruction it hands the host a [`Request`], and takes the answer back.

use vstd::prelude::*;
use crate::scalar::{Arith, Prim};
use crate::value::Value;

verus! {

/// A register of the machine.
#[derive(Clone, Copy, Debug, PartialEq, Eq)]
pub enum Reg {
    /// The value of the node with this index.
    Data(usize),
    /// The gradient of the node with this index.
    Grad(usize),
    /// The first register for intermediate results.
    First,
    /// The second register for intermediate results.
    Second,
}

/// One instruction.
#[derive(Clone, Copy, Debug, PartialEq, Eq)]
pub enum Instr {
    /// Stores a constant in `dst`.
    Load { dst: Reg, bits: u64 },
    /// Stores in `dst` what `prim` yields on the contents of `lhs` and `rhs`.
    Apply { prim: Prim, dst: Reg, lhs: Reg, rhs: Reg },
}

/// What the host is asked to compute: `prim` on the scalars `lhs` and `rhs`.
#[derive(Clone, Copy, Debug, PartialEq, Eq)]
pub struct Request {
    pub prim: Prim,
    pub lhs: u64,
    pub rhs: u64,
}

/// The contents of the registers.
pub struct Regs {
    pub data: Seq<u64>,
    pub grad: Seq<u64>,
    pub first: u64,
    pub second: u64,
}

impl Regs {
    /// Whether the machine has a data register and a gradient register for each of `len` nodes.
    pub open spec fn holds(self, len: nat) -> bool {
        len <= self.data.len() && len <= self.grad.len()
    }

    /// Whether the machine has the register `r`.
    pub open spec fn has(self, r: Reg) -> bool {
        match r {
            Reg::Data(i) => i < self.data.len(),
            Reg::Grad(i) => i < self.grad.len(),
            Reg::First => true,
            Reg::Second => true,
        }
    }

    /// Whether the machine has every register that `instr` names.
    pub open spec fn fits(self, instr: Instr) -> bool {
        match instr {
            Instr::Load { dst, bits } => self.has(dst),
            Instr::Apply { prim, dst, lhs, rhs } => self.has(dst) && self.has(lhs) && self.has(rhs),
        }
    }

    /// The contents of `r`.
    pub open spec fn read(self, r: Reg) -> u64 {
        match r {
            Reg::Data(i) => self.data[i as int],
            Reg::Grad(i) => self.grad[i as int],
            Reg::First => self.first,
            Reg::Second => self.second,
        }
    }

    /// The registers after `bits` is stored in `r`.
    pub open spec fn write(self, r: Reg, bits: u64) -> Regs {
        match r {
            Reg::Data(i) => Regs { data: self.data.update(i as int, bits), ..self },
            Reg::Grad(i) => Regs { grad: self.grad.update(i as int, bits), ..self },
            Reg::First => Regs { first: bits, ..self },
            Reg::Second => Regs { second: bits, ..self },
        }
    }

    /// What the host is asked for `instr`: nothing for a constant load.
    pub open spec fn request(self, instr: Instr) -> Option<Request> {
        match instr {
            Instr::Load { dst, bits } => None,
            Instr::Apply { prim, dst, lhs, rhs } => Some(
                Request { prim, lhs: self.read(lhs), rhs: self.read(rhs) },
            ),
        }
    }

    /// The registers after `instr`, given the host's answer. A constant load ignores the answer.
    pub open spec fn complete(self, instr: Instr, answer: u64) -> Regs {
        match instr {
            Instr::Load { dst, bits } => self.write(dst, bits),
            Instr::Apply { prim, dst, lhs, rhs } => self.write(dst, answer),
        }
    }
}

/// The answer of a host whose arithmetic is `arith`.
pub open spec fn answer(arith: Arith, request: Option<Request>) -> u64 {
    match request {
        Some(q) => arith(q.prim, q.lhs, q.rhs),
        None => 0,
    }
}

/// The registers after one instruction, with a host whose arithmetic is `arith`.
pub open spec fn step(arith: Arith, m: Regs, instr: Instr) -> Regs {
    m.complete(instr, answer(arith, m.request(instr)))
}

/// The registers after the instructions of `code`, one after the other.
pub open spec fn run(arith: Arith, m: Regs, code: Seq<Instr>) -> Regs
    decreases code.len(),
{
    if code.len() == 0 {
        m
    } else {
        step(arith, run(arith, m, code.drop_last()), code.last())
    }
}

/// Whether a machine with `len` nodes has every register that `code` names.
pub open spec fn fits(code: Seq<Instr>, len: nat) -> bool {
    forall|j: int| 0 <= j < code.len() ==> (#[trigger] code[j]).within(len)
}

impl Reg {
    /// Whether the register exists on a machine with `len` nodes.
    pub open spec fn within(self, len: nat) -> bool {
        match self {
            Reg::Data(i) => i < len,
            Reg::Grad(i) => i < len,
            Reg::First => true,
            Reg::Second => true,
        }
    }
}

impl Instr {
    /// Whether a machine with `len` nodes has every register that the instruction names.
    pub open spec fn within(self, len: nat) -> bool {
        match self {
            Instr::Load { dst, bits } => dst.within(len),
            Instr::Apply { prim, dst, lhs, rhs } => {
                dst.within(len) && lhs.within(len) && rhs.within(len)
            },
        }
    }
}

/// Running one piece of code after another is running their concatenation.
pub proof fn lemma_run_concat(arith: Arith, m: Regs, head: Seq<Instr>, tail: Seq<Instr>)
    ensures
        run(arith, m, head + tail) == run(arith, run(arith, m, head), tail),
    decreases tail.len(),
{
    if tail.len() == 0 {
        assert(head + tail =~= head);
    } else {
        lemma_run_concat(arith, m, head, tail.drop_last());
        assert((head + tail).drop_last() =~= head + tail.drop_last());
        assert((head + tail).last() == tail.last());
    }
}

/// Code written for `len` nodes, run on a machine that has registers for as many, leaves the
/// number of the registers as it was.
pub proof fn lemma_run_len(arith: Arith, m: Regs, code: Seq<Instr>, len: nat)
    requires
        fits(code, len),
        len <= m.data.len(),
        len <= m.grad.len(),
    ensures
        run(arith, m, code).data.len() == m.data.len(),
        run(arith, m, code).grad.len() == m.grad.len(),
    decreases code.len(),
{
    if code.len() > 0 {
        lemma_run_len(arith, m, code.drop_last(), len);
        assert(code.last().within(len));
    }
}

/// On such a machine every instruction of the code finds its registers, whatever the
/// instructions before it have stored.
pub proof fn lemma_run_fits(arith: Arith, m: Regs, code: Seq<Instr>, len: nat, j: int)
    requires
        fits(code, len),
        len <= m.data.len(),
        len <= m.grad.len(),
        0 <= j < code.len(),
    ensures
        run(arith, m, code.subrange(0, j)).fits(code[j]),
{
    let before = code.subrange(0, j);
    assert forall|i: int| 0 <= i < before.len() implies (#[trigger] before[i]).within(len) by {
        assert(code[i].within(len));
    }
    lemma_run_len(arith, m, before, len);
    assert(code[j].within(len));
}

/// Whether every answer that `host` may give is the answer of the arithmetic `arith`.
pub open spec fn answers_as<F: Fn(Request) -> u64>(host: F, arith: Arith) -> bool {
    forall|q: Request, a: u64| #[trigger] host.ensures((q,), a) ==> a == arith(q.prim, q.lhs, q.rhs)
}

/// The registers of a host-driven evaluation, as bit patterns.
pub struct Machine {
    data: Vec<u64>,
    grad: Vec<u64>,
    first: u64,
    second: u64,
}

impl View for Machine {
    type V = Regs;

    closed spec fn view(&self) -> Regs {
        Regs { data: self.data@, grad: self.grad@, first: self.first, second: self.second }
    }
}

impl Machine {
    /// A machine for `len` nodes, with every register zero.
    pub fn new(len: usize) -> (m: Machine)
        ensures
            m@.data == Seq::new(len as nat, |i: int| 0u64),
            m@.grad == Seq::new(len as nat, |i: int| 0u64),
            m@.first == 0,
            m@.second == 0,
    {
        let mut data: Vec<u64> = Vec::new();
        let mut grad: Vec<u64> = Vec::new();
        while data.len() < len
            invariant
                data@.len() == grad@.len(),
                data@.len() <= len,
                forall|i: int| 0 <= i < data@.len() ==> data@[i] == 0 && grad@[i] == 0,
            decreases len - data@.len(),
        {
            data.push(0);
            grad.push(0);
        }
        Machine { data, grad, first: 0, second: 0 }
    }

    fn read(&self, r: Reg) -> (bits: u64)
        requires
            self@.has(r),
        ensures
            bits == self@.read(r),
    {
        match r {
            Reg::Data(i) => self.data[i],
            Reg::Grad(i) => self.grad[i],
            Reg::First => self.first,
            Reg::Second => self.second,
        }
    }

    fn write(&mut self, r: Reg, bits: u64)
        requires
            old(self)@.has(r),
        ensures
            final(self)@ == old(self)@.write(r, bits),
    {
        match r {
            Reg::Data(i) => {
                self.data.set(i, bits);
            },
            Reg::Grad(i) => {
                self.grad.set(i, bits);
            },
            Reg::First => {
                self.first = bits;
            },
            Reg::Second => {
                self.second = bits;
            },
        }
    }

    /// Tells whether the machine has registers for `len` nodes.
    pub fn holds(&self, len: usize) -> (ok: bool)
        ensures
            ok == self@.holds(len as nat),
    {
        len <= self.data.len() && len <= self.grad.len()
    }

    fn has(&self, r: Reg) -> (ok: bool)
        ensures
            ok == self@.has(r),
    {
        match r {
            Reg::Data(i) => i < self.data.len(),
            Reg::Grad(i) => i < self.grad.len(),
            Reg::First => true,
            Reg::Second => true,
        }
    }

    /// Whether the machine has every register that `instr` names.
    pub fn fits(&self, instr: &Instr) -> (ok: bool)
        ensures
            ok == self@.fits(*instr),
    {
        match instr {
            Instr::Load { dst, bits } => self.has(*dst),
            Instr::Apply { prim, dst, lhs, rhs } => self.has(*dst) && self.has(*lhs) && self.has(*rhs),
        }
    }

    /// What the host has to compute for `instr`: `None` for a constant load.
    pub fn request(&self, instr: &Instr) -> (q: Option<Request>)
        requires
            self@.fits(*instr),
        ensures
            q == self@.request(*instr),
    {
        match instr {
            Instr::Load { dst, bits } => None,
            Instr::Apply { prim, dst, lhs, rhs } => Some(
                Request { prim: *prim, lhs: self.read(*lhs), rhs: self.read(*rhs) },
            ),
        }
    }

    /// Completes `instr` with the host's answer to its request.
    pub fn complete(&mut self, instr: &Instr, answer: u64)
        requires
            old(self)@.fits(*instr),
        ensures
            final(self)@ == old(self)@.complete(*instr, answer),
    {
        match instr {
            Instr::Load { dst, bits } => self.write(*dst, *bits),
            Instr::Apply { prim, dst, lhs, rhs } => self.write(*dst, answer),
        }
    }

    /// Runs `code`, with `host` to answer the requests, if the machine has every register that
    /// the code names; else the machine stays as it is. Says which of the two it was.
    pub fn execute<F: Fn(Request) -> u64>(&mut self, code: &[Instr], host: F) -> (done: bool)
        requires
            forall|q: Request| host.requires((q,)),
        ensures
            done <==> forall|j: int| 0 <= j < code@.len() ==> old(self)@.fits(#[trigger] code@[j]),
            !done ==> final(self)@ == old(self)@,
            final(self)@.data.len() == old(self)@.data.len(),
            final(self)@.grad.len() == old(self)@.grad.len(),
            done ==> forall|arith: Arith|
                answers_as(host, arith) ==> final(self)@ == #[trigger] run(arith, old(self)@, code@),
    {
        let mut j: usize = 0;
        while j < code.len()
            invariant
                j <= code@.len(),
                self@ == old(self)@,
                forall|i: int| 0 <= i < j ==> self@.fits(#[trigger] code@[i]),
            decreases code@.len() - j,
        {
            if !self.fits(&code[j]) {
                return false;
            }
            j = j + 1;
        }
        let mut i: usize = 0;
        proof {
            assert(code@.subrange(0, 0) =~= Seq::<Instr>::empty());
        }
        while i < code.len()
            invariant
                i <= code@.len(),
                forall|q: Request| host.requires((q,)),
                self@.data.len() == old(self)@.data.len(),
                self@.grad.len() == old(self)@.grad.len(),
                forall|j: int| 0 <= j < code@.len() ==> old(self)@.fits(#[trigger] code@[j]),
                forall|arith: Arith|
                    answers_as(host, arith) ==> self@ == #[trigger] run(
                        arith,
                        old(self)@,
                        code@.subrange(0, i as int),
                    ),
            decreases code@.len() - i,
        {
            let instr = &code[i];
            let ghost before = self@;
            assert(old(self)@.fits(code@[i as int]));
            let asked = self.request(instr);
            let given: u64 = match asked {
                Some(q) => host(q),
                None => 0,
            };
            self.complete(instr, given);
            proof {
                let next = code@.subrange(0, i + 1);
                assert(next.drop_last() =~= code@.subrange(0, i as int));
                assert(next.last() == *instr);
                assert forall|arith: Arith| answers_as(host, arith) implies self@ == #[trigger] run(
                    arith,
                    old(self)@,
                    next,
                ) by {
                    assert(before == run(arith, old(self)@, code@.subrange(0, i as int)));
                    assert(given == answer(arith, before.request(*instr)));
                }
            }
            i = i + 1;
        }
        proof {
            assert(code@.subrange(0, i as int) =~= code@);
        }
        true
    }

    /// The value of the node `v`.
    pub fn data(&self, v: Value) -> (bits: u64)
        requires
            v.inner < self@.data.len(),
        ensures
            bits == self@.data[v.inner as int],
    {
        self.data[v.inner]
    }

    /// The gradient of the node `v`.
    pub fn grad(&self, v: Value) -> (bits: u64)
        requires
            v.inner < self@.grad.len(),
        ensures
            bits == self@.grad[v.inner as int],
    {
        self.grad[v.inner]
    }
}

} // verus!
