//! The messages that applications send over channels.
use vstd::prelude::*;
use crate::bit_reader::BitReader;
use crate::bit_write::BitWrite;
use crate::error::SerdeErr;
use crate::seq_num::SeqNum;
use crate::serde::{Serde, lemma_le_bytes_len};

verus! {

/// A message an application sends: it knows its encoding, writes it, and reads it
/// back.
pub trait Message: Sized {
    /// The bits this message writes.
    spec fn encoding(&self) -> Seq<bool>;

    /// The number of bits this message writes.
    fn bit_length(&self) -> (r: u32)
        requires
            self.encoding().len() <= u32::MAX,
        ensures
            r == self.encoding().len(),
    ;

    /// Whether this message's encoding is shorter than `limit` bits.
    fn encoding_shorter_than(&self, limit: u64) -> (r: bool)
        ensures
            r == (self.encoding().len() < limit),
    ;

    /// Whether this message is a fragment of a larger one.
    spec fn fragment_flag(&self) -> bool;

    /// Whether this message is a fragment of a larger one.
    fn is_fragment(&self) -> (r: bool)
        ensures
            r == self.fragment_flag(),
    ;

    /// Writes the message's encoding.
    fn write<W: BitWrite>(&self, writer: &mut W)
        requires
            old(writer).inv(),
            old(writer).room() >= self.encoding().len(),
            old(writer).budget() >= self.encoding().len(),
        ensures
            final(writer).inv(),
            final(writer).written() == old(writer).written() + self.encoding(),
            final(writer).room() == old(writer).room() - self.encoding().len(),
            final(writer).budget() == old(writer).budget() - self.encoding().len(),
            final(writer).limit() == old(writer).limit(),
    ;

    /// The length of the encoding the bits start with, or `None` when they start with
    /// none.
    spec fn decoded_len(bits: Seq<bool>) -> Option<nat>;

    /// Whether the bits start with an encoding, `n` bits long, of `m`.
    spec fn parses(bits: Seq<bool>, m: Self, n: nat) -> bool;

    /// An encoding followed by anything is read back as the message and its length.
    proof fn lemma_parses_encoding(&self, rest: Seq<bool>)
        requires
            self.encoding().len() <= u32::MAX,
        ensures
            Self::decoded_len(self.encoding() + rest) == Some(self.encoding().len()),
            Self::parses(self.encoding() + rest, *self, self.encoding().len()),
    ;

    /// Reads a message; fails when the unread bits do not start with an encoding.
    fn read(reader: &mut BitReader) -> (r: Result<Self, SerdeErr>)
        requires
            old(reader).wf(),
        ensures
            final(reader).wf(),
            final(reader).bits() == old(reader).bits(),
            match Self::decoded_len(old(reader).remaining()) {
                Some(n) => r matches Ok(m) && Self::parses(old(reader).remaining(), m, n)
                    && final(reader).position() == old(reader).position() + n,
                None => r is Err,
            },
    ;
}

/// The messages framed by continuation bits at the start of `bits`, up to the closing
/// `false` bit: for each, the bits from where it starts and its length; and the number
/// of bits the run takes, closing bit included. `None` when the bits hold no such run.
pub open spec fn framed_run<T: Message>(bits: Seq<bool>) -> Option<(Seq<(Seq<bool>, nat)>, nat)>
    decreases bits.len(),
{
    if bits.len() == 0 {
        None
    } else if !bits[0] {
        Some((Seq::empty(), 1))
    } else {
        match T::decoded_len(bits.drop_first()) {
            None => None,
            Some(n) => if 1 + n > bits.len() {
                None
            } else {
                match framed_run::<T>(bits.skip((1 + n) as int)) {
                    Some((items, k)) => Some((seq![(bits.drop_first(), n)] + items, 1 + n + k)),
                    None => None,
                }
            },
        }
    }
}

/// Whether `msgs` are the messages the bits of `items` hold, one for one.
pub open spec fn parsed_all<T: Message>(items: Seq<(Seq<bool>, nat)>, msgs: Seq<T>) -> bool {
    &&& msgs.len() == items.len()
    &&& forall|i: int| 0 <= i < items.len() ==> T::parses(#[trigger] items[i].0, msgs[i], items[i].1)
}

/// Reads messages, each after a `true` continuation bit, up to and including a closing
/// `false` bit (see `framed_run`).
pub fn read_framed<T: Message>(reader: &mut BitReader) -> (r: Result<Vec<T>, SerdeErr>)
    requires
        old(reader).wf(),
    ensures
        final(reader).wf(),
        final(reader).bits() == old(reader).bits(),
        match framed_run::<T>(old(reader).remaining()) {
            Some((items, n)) => r matches Ok(v) && parsed_all(items, v@) && final(reader).position()
                == old(reader).position() + n,
            None => r is Err,
        },
{
    let ghost rem0 = reader.remaining();
    let ghost pos0 = reader.position();
    let mut out: Vec<T> = Vec::new();
    let ghost done: Seq<(Seq<bool>, nat)> = Seq::empty();
    proof {
        reader.lemma_wf();
        assert(rem0.skip(0) =~= rem0);
        match framed_run::<T>(rem0) {
            Some((items, k)) => assert(done + items =~= items),
            None => {},
        }
    }
    loop
        invariant
            reader.wf(),
            reader.bits() == old(reader).bits(),
            rem0 == old(reader).remaining(),
            pos0 == old(reader).position(),
            pos0 <= reader.position() <= reader.bits().len(),
            reader.remaining() == rem0.skip(reader.position() - pos0),
            parsed_all(done, out@),
            framed_run::<T>(rem0) == match framed_run::<T>(reader.remaining()) {
                Some((items, k)) => Some((done + items, (reader.position() - pos0 + k) as nat)),
                None => None,
            },
        decreases reader.remaining().len(),
    {
        let ghost rem = reader.remaining();
        let ghost pos = reader.position();
        proof {
            reader.lemma_wf();
        }
        let more = match reader.read_bit() {
            Ok(b) => b,
            Err(e) => {
                return Err(e);
            },
        };
        if !more {
            proof {
                assert(done + Seq::<(Seq<bool>, nat)>::empty() =~= done);
            }
            return Ok(out);
        }
        proof {
            reader.lemma_wf();
            assert(reader.remaining() =~= rem.drop_first());
        }
        let m = match T::read(reader) {
            Ok(m) => m,
            Err(e) => {
                return Err(e);
            },
        };
        proof {
            reader.lemma_wf();
            let n = (reader.position() - pos - 1) as nat;
            assert(reader.remaining() =~= rem.skip((1 + n) as int));
            assert(reader.remaining() =~= rem0.skip(reader.position() - pos0));
            let item = (rem.drop_first(), n);
            match framed_run::<T>(reader.remaining()) {
                Some((items, k)) => {
                    assert(done + (seq![item] + items) =~= done.push(item) + items);
                },
                None => {},
            }
            assert(parsed_all(done.push(item), out@.push(m)));
            done = done.push(item);
        }
        out.push(m);
    }
}

/// A message numbered for an indexed channel travels as its index, then the message.
impl<M: Message> Message for (SeqNum, M) {
    open spec fn encoding(&self) -> Seq<bool> {
        self.0.encoding() + self.1.encoding()
    }

    open spec fn fragment_flag(&self) -> bool {
        self.1.fragment_flag()
    }

    fn bit_length(&self) -> (r: u32) {
        proof {
            lemma_le_bytes_len(self.0.0 as nat, 2);
        }
        self.0.bit_length() + self.1.bit_length()
    }

    fn is_fragment(&self) -> (r: bool) {
        self.1.is_fragment()
    }

    fn encoding_shorter_than(&self, limit: u64) -> (r: bool) {
        proof {
            lemma_le_bytes_len(self.0.0 as nat, 2);
        }
        if limit <= 16 {
            false
        } else {
            self.1.encoding_shorter_than(limit - 16)
        }
    }

    fn write<W: BitWrite>(&self, writer: &mut W) {
        proof {
            lemma_le_bytes_len(self.0.0 as nat, 2);
        }
        self.0.ser(writer);
        self.1.write(writer);
        assert(writer.written() =~= old(writer).written() + self.encoding());
    }

    open spec fn decoded_len(bits: Seq<bool>) -> Option<nat> {
        match SeqNum::decoding(bits) {
            Some((_, n1)) => match M::decoded_len(bits.skip(n1 as int)) {
                Some(n2) => Some(n1 + n2),
                None => None,
            },
            None => None,
        }
    }

    open spec fn parses(bits: Seq<bool>, m: (SeqNum, M), n: nat) -> bool {
        match SeqNum::decoding(bits) {
            Some((idx, n1)) => m.0 == idx && n >= n1 && M::parses(bits.skip(n1 as int), m.1, (n - n1) as nat),
            None => false,
        }
    }

    proof fn lemma_parses_encoding(&self, rest: Seq<bool>) {
        lemma_le_bytes_len(self.0.0 as nat, 2);
        self.0.lemma_decode_encoding(self.1.encoding() + rest);
        assert(self.encoding() + rest =~= self.0.encoding() + (self.1.encoding() + rest));
        let n1 = self.0.encoding().len();
        assert((self.encoding() + rest).skip(n1 as int) =~= self.1.encoding() + rest);
        self.1.lemma_parses_encoding(rest);
    }

    fn read(reader: &mut BitReader) -> (r: Result<(SeqNum, M), SerdeErr>) {
        let ghost rem = reader.remaining();
        let ghost pos = reader.position();
        let index = match SeqNum::de(reader) {
            Ok(i) => i,
            Err(e) => {
                return Err(e);
            },
        };
        proof {
            reader.lemma_wf();
            let n1 = (reader.position() - pos) as nat;
            assert(reader.remaining() =~= rem.skip(n1 as int));
        }
        match M::read(reader) {
            Ok(m) => Ok((index, m)),
            Err(e) => Err(e),
        }
    }
}

} // verus!

