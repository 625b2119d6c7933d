//! What a consumer keeps of its channel: every raw sample it was handed, and
//! the encoding under which it currently reads them.
//!
//! A decoded value is a single-precision number, held as its bit pattern.
//! Samples are kept raw, so a change of encoding reinterprets everything
//! captured so far.

use crate::ascii::{literal, parse, renders, spelled};
use crate::port::{MultiPort, PhysicalPort, Port};
use crate::single::{be_word, le_word, rounded, rounds_to, widen, word_from_be, word_from_le};
use vstd::prelude::*;

verus! {

/// How the four bytes of a raw sample are read as a number.
#[allow(non_camel_case_types)]
#[derive(Debug, Clone, Copy, PartialEq, Eq, Structural)]
pub enum converter {
    /// A single-precision number, most significant byte first.
    be_f32,
    /// A single-precision number, least significant byte first.
    le_f32,
    /// An unsigned integer, most significant byte first, widened to single
    /// precision.
    be_u32,
    /// An unsigned integer, least significant byte first, widened to single
    /// precision.
    le_u32,
    /// Four characters of decimal text; zero where they are no number.
    u8_to_string,
}

impl converter {
    /// The encoding that follows this one in the cycle.
    pub open spec fn successor(self) -> converter {
        match self {
            converter::be_f32 => converter::le_f32,
            converter::le_f32 => converter::be_u32,
            converter::be_u32 => converter::le_u32,
            converter::le_u32 => converter::u8_to_string,
            converter::u8_to_string => converter::be_f32,
        }
    }

    /// The encoding's name as the contracts see it.
    pub open spec fn label(self) -> Seq<char> {
        match self {
            converter::be_f32 => "be_f32"@,
            converter::le_f32 => "le_f32"@,
            converter::be_u32 => "be_u32"@,
            converter::le_u32 => "le_u32"@,
            converter::u8_to_string => "u8_to_string"@,
        }
    }

    /// The pattern of the number that a raw sample stands for under this
    /// encoding.
    pub open spec fn reading(self, raw: [u8; 4]) -> u32 {
        match self {
            converter::be_f32 => be_word(raw),
            converter::le_f32 => le_word(raw),
            converter::be_u32 => rounded(be_word(raw) as nat, 1),
            converter::le_u32 => rounded(le_word(raw) as nat, 1),
            converter::u8_to_string => match spelled(raw@) {
                Some(bits) => bits,
                None => 0,
            },
        }
    }

    /// Whether `bits` is the pattern of the number that a raw sample stands
    /// for under this encoding, said without a choice: a widened integer is
    /// the pattern the integer rounds to, and text is rendered as its literal
    /// says, or is zero where it is no literal.
    pub open spec fn decodes(self, raw: [u8; 4], bits: u32) -> bool {
        match self {
            converter::be_f32 => bits == be_word(raw),
            converter::le_f32 => bits == le_word(raw),
            converter::be_u32 => rounds_to(be_word(raw) as nat, 1, bits),
            converter::le_u32 => rounds_to(le_word(raw) as nat, 1, bits),
            converter::u8_to_string => match literal(raw@) {
                Some(said) => renders(said, bits),
                None => bits == 0,
            },
        }
    }

    /// Decodes a raw sample. Every sample has a value under every encoding:
    /// text that is no number reads as zero.
    pub fn convert(&self, data: [u8; 4]) -> (bits: u32)
        ensures
            bits == self.reading(data),
            self.decodes(data, bits),
    {
        match self {
            converter::be_f32 => word_from_be(data),
            converter::le_f32 => word_from_le(data),
            converter::be_u32 => widen(word_from_be(data)),
            converter::le_u32 => widen(word_from_le(data)),
            converter::u8_to_string => match parse(&data) {
                Some(bits) => bits,
                None => 0,
            },
        }
    }

    /// The encoding that follows this one in the cycle.
    pub fn swap(&self) -> (next: converter)
        ensures
            next == self.successor(),
    {
        match self {
            converter::be_f32 => converter::le_f32,
            converter::le_f32 => converter::be_u32,
            converter::be_u32 => converter::le_u32,
            converter::le_u32 => converter::u8_to_string,
            converter::u8_to_string => converter::be_f32,
        }
    }

    /// The encoding's name.
    pub fn name(&self) -> (label: String)
        ensures
            label@ == self.label(),
    {
        match self {
            converter::be_f32 => "be_f32",
            converter::le_f32 => "le_f32",
            converter::be_u32 => "be_u32",
            converter::le_u32 => "le_u32",
            converter::u8_to_string => "u8_to_string",
        }.to_owned()
    }
}

/// The cycle of encodings closes after five steps and not before: the five
/// encodings met on the way are all different, so all of them are met.
pub proof fn lemma_cycle_of_five(start: converter)
    ensures
        start.successor().successor().successor().successor().successor() == start,
        start.successor() != start,
        start.successor().successor() != start,
        start.successor().successor().successor() != start,
        start.successor().successor().successor().successor() != start,
{
}

/// One channel's capture: the claim on the channel, every raw sample drawn
/// from it so far, and the encoding they are read under.
pub struct Graph {
    /// The raw samples, oldest first.
    pub values: Vec<[u8; 4]>,
    /// The claim on the channel.
    pub port: MultiPort,
    /// The encoding in use.
    pub converter: converter,
}

impl Graph {
    /// The captured samples decoded under the encoding in use, oldest
    /// first.
    pub open spec fn decoded(self) -> Seq<u32> {
        Seq::new(self.values@.len(), |i: int| self.converter.reading(self.values@[i]))
    }

    /// The capture read under the next encoding.
    pub open spec fn swapped(self) -> Graph {
        Graph { converter: self.converter.successor(), ..self }
    }

    /// An empty capture on a claimed channel, read most significant byte
    /// first as single-precision numbers.
    pub fn new(port: MultiPort) -> (graph: Graph)
        ensures
            graph.values@ == Seq::<[u8; 4]>::empty(),
            graph.port == port,
            graph.converter == converter::be_f32,
    {
        Graph { values: Vec::new(), port, converter: converter::be_f32 }
    }

    /// Moves on to the next encoding. Nothing captured is touched: it is
    /// only read differently from now on.
    pub fn swap_endianness(&mut self)
        ensures
            *final(self) == old(self).swapped(),
    {
        self.converter = self.converter.swap();
    }

    /// Appends a raw sample to the capture.
    pub fn push(&mut self, v: [u8; 4])
        ensures
            final(self).values@ == old(self).values@.push(v),
            final(self).converter == old(self).converter,
            final(self).port == old(self).port,
    {
        self.values.push(v);
    }

    /// Appends a raw sample to the capture and gives its value under the
    /// encoding in use.
    pub fn append_and_decode(&mut self, raw: [u8; 4]) -> (bits: u32)
        ensures
            bits == old(self).converter.reading(raw),
            final(self).values@ == old(self).values@.push(raw),
            final(self).converter == old(self).converter,
            final(self).port == old(self).port,
    {
        self.values.push(raw);
        self.converter.convert(raw)
    }

    /// Decodes the whole capture under the encoding in use, oldest sample
    /// first. Nothing is remembered from one call to the next.
    pub fn get_values(&self) -> (values: Vec<u32>)
        ensures
            values@ == self.decoded(),
    {
        let mut values: Vec<u32> = Vec::new();
        let mut i: usize = 0;
        while i < self.values.len()
            invariant
                i <= self.values.len(),
                values@ == Seq::new(i as nat, |j: int| self.converter.reading(self.values@[j])),
            decreases self.values.len() - i,
        {
            values.push(self.converter.convert(self.values[i]));
            assert(values@ =~= Seq::new(
                (i + 1) as nat,
                |j: int| self.converter.reading(self.values@[j]),
            ));
            i += 1;
        }
        values
    }

    /// The name of the claim.
    pub fn name(&self) -> (label: String)
        ensures
            label@ == self.port.label(),
    {
        self.port.name()
    }

    /// Draws what the channel has next, if anything, into the capture, and
    /// gives its value under the encoding in use. `simulated` is the sample
    /// that a simulated channel is to give.
    pub fn fetch(&mut self, hub: &mut PhysicalPort, simulated: [u8; 4]) -> (bits: Option<u32>)
        ensures
            final(hub)@ == old(hub)@.pulled(old(self).port@, simulated),
            final(self).converter == old(self).converter,
            final(self).port == old(self).port,
            match old(hub)@.oldest(old(self).port@, simulated) {
                Some(raw) => bits == Some(old(self).converter.reading(raw)) && final(self).values@
                    == old(self).values@.push(raw),
                None => bits is None && final(self).values@ == old(self).values@,
            },
    {
        match hub.pull(&self.port, simulated) {
            Some(raw) => Some(self.append_and_decode(raw)),
            None => None,
        }
    }
}

/// Swapping the encoding five times leaves a capture as it was.
pub proof fn lemma_five_swaps_restore(graph: Graph)
    ensures
        graph.swapped().swapped().swapped().swapped().swapped() == graph,
{
}

/// A swap reinterprets the whole capture: every sample captured before the
/// swap is still there, and is decoded under the new encoding afterwards.
pub proof fn lemma_swap_reinterprets(graph: Graph)
    ensures
        graph.swapped().values == graph.values,
        graph.swapped().decoded().len() == graph.values@.len(),
        forall|i: int|
            0 <= i < graph.values@.len() ==> #[trigger] graph.swapped().decoded()[i]
                == graph.converter.successor().reading(graph.values@[i]),
{
}

} // verus!
