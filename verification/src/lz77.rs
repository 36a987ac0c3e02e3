use vstd::prelude::*;
use crate::error::InflateError;

verus! {

/// One step of the decoded symbol stream: emit a byte, end the block, or
/// copy `length` bytes from `distance` positions back in the output.
#[derive(Clone, Copy, Debug, PartialEq, Eq, Structural)]
pub enum Instruction {
    Literal(u8),
    EndOfBlock,
    BackReference { length: u16, distance: u16 },
}

/// The last `cap` elements of `s`: what a history of capacity `cap` retains
/// after the bytes of `s` have been appended in order.
pub open spec fn tail_cap(s: Seq<u8>, cap: int) -> Seq<u8> {
    if s.len() <= cap {
        s
    } else {
        s.skip(s.len() - cap)
    }
}

/// Appending one byte and then capping equals capping after the append.
pub proof fn lemma_tail_cap_push(s: Seq<u8>, b: u8, cap: int)
    requires
        cap >= 1,
    ensures
        tail_cap(tail_cap(s, cap).push(b), cap) == tail_cap(s.push(b), cap),
{
    assert(tail_cap(tail_cap(s, cap).push(b), cap) =~= tail_cap(s.push(b), cap));
}

/// The bytes produced by copying `n` bytes from `dist` positions behind the
/// end of `hist`, each copied byte entering the history (of capacity `cap`)
/// before the next is read. With `n > dist` the copy overlaps itself and
/// repeats the trailing pattern of the history.
pub open spec fn back_ref_bytes(hist: Seq<u8>, cap: int, dist: int, n: nat) -> Seq<u8>
    recommends
        1 <= dist <= hist.len() <= cap,
    decreases n,
{
    if n == 0 {
        Seq::empty()
    } else {
        let b = hist[hist.len() - dist];
        seq![b] + back_ref_bytes(tail_cap(hist.push(b), cap), cap, dist, (n - 1) as nat)
    }
}

/// A back-reference copy of `n` bytes produces exactly `n` bytes.
pub proof fn lemma_back_ref_bytes_len(hist: Seq<u8>, cap: int, dist: int, n: nat)
    ensures
        back_ref_bytes(hist, cap, dist, n).len() == n,
    decreases n,
{
    if n > 0 {
        let b = hist[hist.len() - dist];
        lemma_back_ref_bytes_len(tail_cap(hist.push(b), cap), cap, dist, (n - 1) as nat);
    }
}

/// What one instruction does to a history of capacity `cap`: the history
/// afterwards and the bytes emitted, or the error that stops the decode.
pub open spec fn apply_spec(hist: Seq<u8>, cap: int, inst: Instruction) -> Result<
    (Seq<u8>, Seq<u8>),
    InflateError,
> {
    match inst {
        Instruction::Literal(b) => Ok((tail_cap(hist.push(b), cap), seq![b])),
        Instruction::EndOfBlock => Ok((hist, Seq::empty())),
        Instruction::BackReference { length, distance } => {
            if distance > hist.len() {
                Err(InflateError::DistanceTooFar(distance))
            } else {
                let em = back_ref_bytes(hist, cap, distance as int, length as nat);
                Ok((tail_cap(hist + em, cap), em))
            }
        },
    }
}

proof fn lemma_mod_small(a: int, cap: int)
    requires
        0 <= a < 2 * cap,
        cap >= 1,
    ensures
        a % cap == if a < cap { a } else { a - cap },
{
    assert(a % cap == if a < cap { a } else { a - cap }) by (nonlinear_arith)
        requires 0 <= a < 2 * cap && cap >= 1;
}

/// The window of most recently emitted bytes, held as a circular buffer of
/// fixed capacity. Once full, each append evicts the oldest byte.
#[derive(Debug)]
pub struct History {
    buffer: Vec<u8>,
    start: usize,
    length: usize,
}

impl History {
    /// How many bytes the history can hold before evicting.
    pub closed spec fn capacity(self) -> int {
        self.buffer@.len() as int
    }

    /// The retained bytes, oldest first.
    pub closed spec fn contents(self) -> Seq<u8> {
        Seq::new(self.length as nat, |i: int| self.buffer@[(self.start + i) % self.capacity()])
    }

    pub closed spec fn wf(self) -> bool {
        &&& 1 <= self.buffer@.len() <= 32768
        &&& self.start < self.buffer@.len()
        &&& self.length <= self.buffer@.len()
    }

    /// A well-formed history never holds more than its capacity.
    pub proof fn lemma_len_le_capacity(self)
        requires
            self.wf(),
        ensures
            self.contents().len() <= self.capacity() <= 32768,
    {
    }

    /// A fresh, empty history. The capacity is the window size the stream
    /// header announced, at most 32 KiB.
    pub fn new(max_length: usize) -> (h: History)
        requires
            1 <= max_length <= 32768,
        ensures
            h.wf(),
            h.capacity() == max_length,
            h.contents() == Seq::<u8>::empty(),
    {
        let mut buffer: Vec<u8> = Vec::new();
        while buffer.len() < max_length
            invariant
                buffer@.len() <= max_length,
            decreases max_length - buffer.len(),
        {
            buffer.push(0);
        }
        let h = History { buffer, start: 0, length: 0 };
        proof {
            assert(h.contents() =~= Seq::<u8>::empty());
        }
        h
    }

    pub fn len(&self) -> (r: usize)
        requires
            self.wf(),
        ensures
            r == self.contents().len(),
    {
        self.length
    }

    /// Appends one byte, evicting the oldest byte when the history is full.
    pub fn append(&mut self, byte: u8)
        requires
            old(self).wf(),
        ensures
            final(self).wf(),
            final(self).capacity() == old(self).capacity(),
            final(self).contents() == tail_cap(old(self).contents().push(byte), old(self).capacity()),
    {
        let ghost old_contents = self.contents();
        let ghost cap = self.capacity();
        let cap_e = self.buffer.len();
        let end = if self.length >= cap_e - self.start {
            self.length - (cap_e - self.start)
        } else {
            self.start + self.length
        };
        proof {
            lemma_mod_small(self.start + self.length, cap);
            assert(end == (self.start + self.length) % cap);
        }
        self.buffer.set(end, byte);
        if self.length < cap_e {
            self.length = self.length + 1;
        } else {
            self.start = if self.start + 1 == cap_e {
                0
            } else {
                self.start + 1
            };
        }
        proof {
            let new_contents = tail_cap(old_contents.push(byte), cap);
            assert forall|i: int| 0 <= i < self.length implies self.buffer@[(self.start + i) % cap]
                == new_contents[i] by {
                lemma_mod_small(self.start + i, cap);
                lemma_mod_small(old(self).start + i, cap);
                if old(self).length < cap {
                    if i < old(self).length {
                        assert((self.start + i) % cap != (old(self).start + old(self).length) % cap) by {
                            lemma_mod_small(old(self).start + old(self).length, cap);
                        }
                    }
                } else {
                    if i < self.length - 1 {
                        lemma_mod_small(old(self).start + i + 1, cap);
                        assert((self.start + i) % cap == (old(self).start + i + 1) % cap);
                        assert((old(self).start + i + 1) % cap != (old(self).start + old(self).length) % cap) by {
                            lemma_mod_small(old(self).start + old(self).length, cap);
                        }
                    } else {
                        lemma_mod_small(old(self).start + old(self).length, cap);
                        assert((self.start + i) % cap == (old(self).start + old(self).length) % cap);
                    }
                }
            }
            assert(self.contents() =~= new_contents);
        }
    }

    /// Appends a run of bytes in order.
    pub fn extend(&mut self, bytes: &[u8])
        requires
            old(self).wf(),
        ensures
            final(self).wf(),
            final(self).capacity() == old(self).capacity(),
            final(self).contents() == tail_cap(
                old(self).contents() + bytes@,
                old(self).capacity(),
            ),
    {
        let ghost cap = self.capacity();
        let ghost old_contents = self.contents();
        let n = bytes.len();
        let mut j: usize = 0;
        while j < n
            invariant
                self.wf(),
                self.capacity() == cap,
                n == bytes@.len(),
                j <= n,
                self.contents() == tail_cap(old_contents + bytes@.take(j as int), cap),
            decreases n - j,
        {
            let b = bytes[j];
            self.append(b);
            proof {
                lemma_tail_cap_push(old_contents + bytes@.take(j as int), b, cap);
                assert((old_contents + bytes@.take(j as int)).push(b)
                    =~= old_contents + bytes@.take(j + 1));
            }
            j = j + 1;
        }
        proof {
            assert(bytes@.take(n as int) =~= bytes@);
        }
    }

    /// The byte at position `index`. A non-negative index counts from the
    /// oldest retained byte; a negative index counts back from the most
    /// recently appended byte, `-1` being the newest.
    pub fn get(&self, index: isize) -> (r: u8)
        requires
            self.wf(),
            -(self.contents().len() as int) <= index < self.contents().len() as int,
        ensures
            r == self.contents()[if index >= 0 {
                index as int
            } else {
                self.contents().len() + index
            }],
    {
        let ghost cap = self.capacity();
        let idx: usize = if index >= 0 {
            index as usize
        } else {
            proof {
                self.lemma_len_le_capacity();
            }
            self.length - ((-index) as usize)
        };
        let cap_e = self.buffer.len();
        let pos = if idx >= cap_e - self.start {
            idx - (cap_e - self.start)
        } else {
            self.start + idx
        };
        proof {
            lemma_mod_small(self.start + idx, cap);
        }
        self.buffer[pos]
    }

    /// Carries out one instruction against this history: emitted bytes are
    /// pushed onto `out` in order and enter the history as they are produced.
    /// A back-reference that reaches further back than the bytes held fails
    /// with `DistanceTooFar` and emits nothing.
    pub fn apply_instruction(&mut self, inst: Instruction, out: &mut Vec<u8>) -> (r: Result<
        (),
        InflateError,
    >)
        requires
            old(self).wf(),
            inst matches Instruction::BackReference { distance, .. } ==> distance >= 1,
        ensures
            final(self).wf(),
            final(self).capacity() == old(self).capacity(),
            match r {
                Ok(_) => {
                    &&& apply_spec(old(self).contents(), old(self).capacity(), inst) matches Ok(p)
                    &&& final(self).contents() == p.0
                    &&& final(out)@ == old(out)@ + p.1
                },
                Err(e) => {
                    &&& apply_spec(old(self).contents(), old(self).capacity(), inst) == Err::<
                        (Seq<u8>, Seq<u8>),
                        _,
                    >(e)
                    &&& final(self).contents() == old(self).contents()
                    &&& final(out)@ == old(out)@
                },
            },
    {
        let ghost cap = self.capacity();
        let ghost hist0 = self.contents();
        match inst {
            Instruction::Literal(b) => {
                self.append(b);
                out.push(b);
                proof {
                    assert(out@ =~= old(out)@ + seq![b]);
                }
                Ok(())
            },
            Instruction::EndOfBlock => Ok(()),
            Instruction::BackReference { length, distance } => {
                if distance as usize > self.length {
                    return Err(InflateError::DistanceTooFar(distance));
                }
                let ghost emitted = back_ref_bytes(hist0, cap, distance as int, length as nat);
                proof {
                    lemma_back_ref_bytes_len(hist0, cap, distance as int, length as nat);
                }
                let mut k: u16 = 0;
                while k < length
                    invariant
                        self.wf(),
                        self.capacity() == cap,
                        k <= length,
                        1 <= distance <= self.contents().len(),
                        self.contents() == tail_cap(
                            hist0 + emitted.take(k as int),
                            cap,
                        ),
                        out@ == old(out)@ + emitted.take(k as int),
                        emitted == back_ref_bytes(hist0, cap, distance as int, length as nat),
                        emitted.len() == length,
                        emitted.take(k as int)
                            + back_ref_bytes(self.contents(), cap, distance as int, (length - k) as nat)
                            =~= emitted,
                    decreases length - k,
                {
                    let ghost hist_k = self.contents();
                    let ghost rest = back_ref_bytes(hist_k, cap, distance as int, (length - k) as nat);
                    proof {
                        self.lemma_len_le_capacity();
                        lemma_back_ref_bytes_len(hist_k, cap, distance as int, (length - k) as nat);
                    }
                    let b = self.get(-(distance as isize));
                    proof {
                        let tail = back_ref_bytes(
                            tail_cap(hist_k.push(b), cap),
                            cap,
                            distance as int,
                            (length - k - 1) as nat,
                        );
                        assert(rest == seq![b] + tail);
                        assert(rest[0] == b);
                        assert(emitted[k as int] == (emitted.take(k as int) + rest)[k as int]);
                        assert(emitted[k as int] == b);
                    }
                    self.append(b);
                    out.push(b);
                    proof {
                        lemma_tail_cap_push(hist0 + emitted.take(k as int), b, cap);
                        assert((hist0 + emitted.take(k as int)).push(b)
                            =~= hist0 + emitted.take(k + 1));
                        assert(out@ =~= old(out)@ + emitted.take(k + 1));
                        let tail = back_ref_bytes(
                            self.contents(),
                            cap,
                            distance as int,
                            (length - k - 1) as nat,
                        );
                        assert(emitted.take(k + 1) + tail =~= emitted) by {
                            assert(self.contents() == tail_cap(hist_k.push(b), cap));
                            assert(rest == seq![b] + tail);
                            assert(emitted =~= emitted.take(k as int) + rest);
                            assert forall|i: int| 0 <= i < emitted.len() implies
                                (emitted.take(k + 1) + tail)[i] == emitted[i] by {
                                if i > k {
                                    assert(emitted[i] == (emitted.take(k as int) + rest)[i]);
                                    assert(emitted[i] == rest[i - k]);
                                    assert(rest[i - k] == (seq![b] + tail)[i - k]);
                                }
                            }
                        }
                    }
                    k = k + 1;
                }
                proof {
                    assert(emitted.take(length as int) =~= emitted);
                }
                Ok(())
            },
        }
    }
}

} // verus!
