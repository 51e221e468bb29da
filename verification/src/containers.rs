use core::marker::PhantomData;
use vstd::prelude::*;

use crate::bytes::{InputByteQueue, InputByteQueueError, OutputByteQueue};
use crate::protocol::{shortage, Codec, ReadError, Readable, SizeNumber, Writable, WriteError};

verus! {

/// The back-to-back wire forms of a sequence of values, in order.
pub open spec fn wire_concat<T: Writable>(vs: Seq<<T as DeepView>::V>) -> Seq<u8>
    decreases vs.len(),
{
    if vs.len() == 0 {
        Seq::empty()
    } else {
        T::spec_wire(vs[0]) + wire_concat::<T>(vs.skip(1))
    }
}

/// Decode elements from the front of `s` until `s` is exhausted. `fuel`
/// bounds the recursion; `s.len()` is always enough, since every element of a
/// nonempty sequence consumes at least one byte. The out-of-fuel and
/// no-progress branches report shortage; they are unreachable for any type
/// that meets `Readable::lemma_read_bounds`.
pub open spec fn read_all<T: Readable>(s: Seq<u8>, fuel: nat) -> Result<
    (Seq<<T as DeepView>::V>, int),
    ReadError,
>
    decreases fuel,
{
    if s.len() == 0 {
        Ok((Seq::empty(), 0))
    } else if fuel == 0 {
        Err(shortage())
    } else {
        match T::spec_read(s) {
            Err(e) => Err(e),
            Ok((v, n)) => if n < 1 || n > s.len() {
                Err(shortage())
            } else {
                match read_all::<T>(s.skip(n), (fuel - 1) as nat) {
                    Err(e) => Err(e),
                    Ok((vs, m)) => Ok((seq![v] + vs, n + m)),
                }
            },
        }
    }
}

/// Decode exactly `count` elements from the front of `s`.
pub open spec fn read_count<T: Readable>(s: Seq<u8>, count: nat) -> Result<
    (Seq<<T as DeepView>::V>, int),
    ReadError,
>
    decreases count,
{
    if count == 0 {
        Ok((Seq::empty(), 0))
    } else {
        match T::spec_read(s) {
            Err(e) => Err(e),
            Ok((v, n)) => match read_count::<T>(s.skip(n), (count - 1) as nat) {
                Err(e) => Err(e),
                Ok((vs, m)) => Ok((seq![v] + vs, n + m)),
            },
        }
    }
}

/// `read_all` does not depend on the fuel, as long as there is enough.
pub proof fn lemma_read_all_fuel<T: Readable>(s: Seq<u8>, f1: nat, f2: nat)
    requires
        s.len() <= f1,
        s.len() <= f2,
    ensures
        read_all::<T>(s, f1) == read_all::<T>(s, f2),
    decreases s.len(),
{
    if s.len() > 0 {
        T::lemma_read_bounds(s);
        match T::spec_read(s) {
            Ok((v, n)) => {
                if 1 <= n <= s.len() {
                    lemma_read_all_fuel::<T>(s.skip(n), (f1 - 1) as nat, (f2 - 1) as nat);
                }
            },
            Err(e) => {},
        }
    }
}

pub proof fn lemma_read_all_bounds<T: Readable>(s: Seq<u8>, fuel: nat)
    ensures
        read_all::<T>(s, fuel) matches Ok((vs, m)) ==> 0 <= m <= s.len() && (s.len() > 0 ==> 1
            <= m),
    decreases fuel,
{
    if s.len() > 0 && fuel > 0 {
        T::lemma_read_bounds(s);
        match T::spec_read(s) {
            Ok((v, n)) => {
                if 1 <= n <= s.len() {
                    lemma_read_all_bounds::<T>(s.skip(n), (fuel - 1) as nat);
                }
            },
            Err(e) => {},
        }
    }
}

/// Remaining-bytes framing consumes the whole queue: a successful decode
/// ends exactly at its end.
pub proof fn lemma_read_all_consumes_all<T: Readable>(s: Seq<u8>, fuel: nat)
    ensures
        read_all::<T>(s, fuel) matches Ok((vs, m)) ==> m == s.len(),
    decreases fuel,
{
    if s.len() > 0 && fuel > 0 {
        T::lemma_read_bounds(s);
        match T::spec_read(s) {
            Ok((v, n)) => {
                if 1 <= n <= s.len() {
                    lemma_read_all_consumes_all::<T>(s.skip(n), (fuel - 1) as nat);
                }
            },
            Err(e) => {},
        }
    }
}

pub proof fn lemma_read_count_bounds<T: Readable>(s: Seq<u8>, count: nat)
    ensures
        read_count::<T>(s, count) matches Ok((vs, m)) ==> 0 <= m <= s.len() && vs.len() == count,
    decreases count,
{
    if count > 0 {
        T::lemma_read_bounds(s);
        match T::spec_read(s) {
            Ok((v, n)) => {
                lemma_read_count_bounds::<T>(s.skip(n), (count - 1) as nat);
            },
            Err(e) => {},
        }
    }
}

/// Round trip of back-to-back framing: decoding the concatenated wire forms
/// of `v` consumes everything and yields `v`.
pub proof fn lemma_read_all_round_trip<T: Codec>(v: Seq<<T as DeepView>::V>)
    requires
        T::tail_lenient(),
        forall|i: int| 0 <= i < v.len() ==> T::fits(#[trigger] v[i]),
    ensures
        read_all::<T>(wire_concat::<T>(v), wire_concat::<T>(v).len()) == Ok::<_, ReadError>(
            (v, wire_concat::<T>(v).len() as int),
        ),
    decreases v.len(),
{
    let w = wire_concat::<T>(v);
    if v.len() == 0 {
        assert(v =~= Seq::<<T as DeepView>::V>::empty());
    } else {
        let w0 = T::spec_wire(v[0]);
        let wr = wire_concat::<T>(v.skip(1));
        T::lemma_wire_nonempty(v[0]);
        T::lemma_round_trip(v[0], wr);
        assert(w.skip(w0.len() as int) =~= wr);
        assert forall|i: int| 0 <= i < v.skip(1).len() implies T::fits(#[trigger] v.skip(1)[i]) by {
            assert(v.skip(1)[i] == v[i + 1]);
        }
        lemma_read_all_round_trip::<T>(v.skip(1));
        lemma_read_all_fuel::<T>(wr, wr.len(), (w.len() - 1) as nat);
        assert(seq![v[0]] + v.skip(1) =~= v);
    }
}

/// Round trip of length-provided framing's element run: decoding
/// `v.len()` elements from the concatenated wire forms, with anything after,
/// yields `v` and consumes exactly the concatenation.
pub proof fn lemma_read_count_round_trip<T: Codec>(v: Seq<<T as DeepView>::V>, rest: Seq<u8>)
    requires
        T::tail_lenient(),
        forall|i: int| 0 <= i < v.len() ==> T::fits(#[trigger] v[i]),
    ensures
        read_count::<T>(wire_concat::<T>(v) + rest, v.len() as nat) == Ok::<_, ReadError>(
            (v, wire_concat::<T>(v).len() as int),
        ),
    decreases v.len(),
{
    if v.len() == 0 {
        assert(v =~= Seq::<<T as DeepView>::V>::empty());
    } else {
        let w0 = T::spec_wire(v[0]);
        let wr = wire_concat::<T>(v.skip(1));
        assert(wire_concat::<T>(v) + rest =~= w0 + (wr + rest));
        T::lemma_round_trip(v[0], wr + rest);
        assert((w0 + (wr + rest)).skip(w0.len() as int) =~= wr + rest);
        assert forall|i: int| 0 <= i < v.skip(1).len() implies T::fits(#[trigger] v.skip(1)[i]) by {
            assert(v.skip(1)[i] == v[i + 1]);
        }
        lemma_read_count_round_trip::<T>(v.skip(1), rest);
        assert(seq![v[0]] + v.skip(1) =~= v);
    }
}

/// Append the wire forms of all elements, in order.
fn write_all<T: Writable>(elems: &Vec<T>, output: &mut OutputByteQueue)
    ensures
        final(output)@ == old(output)@ + wire_concat::<T>(elems.deep_view()),
{
    let ghost vs = elems.deep_view();
    let n = elems.len();
    let mut i: usize = 0;
    proof {
        assert(vs.skip(0) =~= vs);
    }
    while i < n
        invariant
            i <= n,
            n == elems@.len(),
            vs == elems.deep_view(),
            output@ + wire_concat::<T>(vs.skip(i as int)) =~= old(output)@ + wire_concat::<T>(vs),
        decreases n - i,
    {
        let e = &elems[i];
        proof {
            assert(vs.skip(i as int)[0] == vs[i as int]);
            assert(vs[i as int] == elems@[i as int].deep_view());
            assert(vs.skip(i as int).skip(1) =~= vs.skip(i + 1));
            assert((output@ + T::spec_wire(vs[i as int])) + wire_concat::<T>(vs.skip(i + 1)) =~= output@
                + (T::spec_wire(vs[i as int]) + wire_concat::<T>(vs.skip(i + 1))));
        }
        let _ = e.write(output);
        i = i + 1;
    }
    proof {
        assert(wire_concat::<T>(vs.skip(n as int)) =~= Seq::<u8>::empty());
        assert(output@ + Seq::<u8>::empty() =~= output@);
    }
}

impl<T: Writable> Writable for Option<T> {
    open spec fn spec_wire(v: Option<<T as DeepView>::V>) -> Seq<u8> {
        match v {
            None => seq![0u8],
            Some(x) => seq![1u8] + T::spec_wire(x),
        }
    }

    fn write(&self, output: &mut OutputByteQueue) -> (r: Result<(), WriteError>) {
        match self {
            None => {
                output.put_byte(0);
                Ok(())
            },
            Some(x) => {
                output.put_byte(1);
                let res = x.write(output);
                proof {
                    assert((old(output)@ + seq![1u8]) + T::spec_wire(x.deep_view()) =~= old(output)@
                        + (seq![1u8] + T::spec_wire(x.deep_view())));
                }
                res
            },
        }
    }
}

impl<T: Readable> Readable for Option<T> {
    open spec fn spec_read(s: Seq<u8>) -> Result<(Option<<T as DeepView>::V>, int), ReadError> {
        if s.len() == 0 {
            Err(shortage())
        } else if s[0] == 0 {
            Ok((None, 1))
        } else {
            match T::spec_read(s.skip(1)) {
                Ok((v, n)) => Ok((Some(v), n + 1)),
                Err(e) => Err(e),
            }
        }
    }

    proof fn lemma_read_bounds(s: Seq<u8>) {
        if s.len() > 0 && s[0] != 0 {
            T::lemma_read_bounds(s.skip(1));
        }
    }

    fn read(input: &mut InputByteQueue) -> (r: Result<Option<T>, ReadError>) {
        match input.take_byte() {
            Err(_) => Err(ReadError::InputQueue(InputByteQueueError::NoBytes)),
            Ok(b) => {
                if b == 0 {
                    Ok(None)
                } else {
                    match T::read(input) {
                        Ok(v) => {
                            proof {
                                T::lemma_read_bounds(old(input)@.skip(1));
                                match T::spec_read(old(input)@.skip(1)) {
                                    Ok((vv, n)) => {
                                        assert(old(input)@.skip(1).skip(n) =~= old(input)@.skip(
                                            n + 1,
                                        ));
                                    },
                                    Err(e2) => {},
                                }
                            }
                            Ok(Some(v))
                        },
                        Err(e) => Err(e),
                    }
                }
            },
        }
    }
}

impl<T: Codec> Codec for Option<T> {
    open spec fn fits(v: Option<<T as DeepView>::V>) -> bool {
        match v {
            None => true,
            Some(x) => T::fits(x),
        }
    }

    open spec fn tail_lenient() -> bool {
        T::tail_lenient()
    }

    proof fn lemma_wire_nonempty(v: Option<<T as DeepView>::V>) {
    }

    proof fn lemma_round_trip(v: Option<<T as DeepView>::V>, rest: Seq<u8>) {
        match v {
            None => {
                assert((seq![0u8] + rest)[0] == 0);
            },
            Some(x) => {
                let w = seq![1u8] + T::spec_wire(x);
                assert((w + rest)[0] == 1);
                assert((w + rest).skip(1) =~= T::spec_wire(x) + rest);
                T::lemma_round_trip(x, rest);
            },
        }
    }
}

/// A homogeneous array framed without a count: decoding consumes elements
/// until the queue is empty, and encoding writes the elements back to back.
/// Valid only as the last field of a frame.
#[derive(Clone, Debug, PartialEq)]
pub struct RemainingBytesArray<T> {
    pub result: Vec<T>,
}

impl<T: DeepView> DeepView for RemainingBytesArray<T> {
    type V = Seq<<T as DeepView>::V>;

    open spec fn deep_view(&self) -> Seq<<T as DeepView>::V> {
        self.result.deep_view()
    }
}

impl<T> RemainingBytesArray<T> {
    /// The array holding exactly the given elements.
    pub fn new(result: Vec<T>) -> (r: RemainingBytesArray<T>)
        ensures
            r.result == result,
    {
        RemainingBytesArray { result }
    }
}

impl<T: Writable> Writable for RemainingBytesArray<T> {
    open spec fn spec_wire(v: Seq<<T as DeepView>::V>) -> Seq<u8> {
        wire_concat::<T>(v)
    }

    fn write(&self, output: &mut OutputByteQueue) -> (r: Result<(), WriteError>) {
        write_all::<T>(&self.result, output);
        Ok(())
    }
}

impl<T: Readable> Readable for RemainingBytesArray<T> {
    open spec fn spec_read(s: Seq<u8>) -> Result<(Seq<<T as DeepView>::V>, int), ReadError> {
        read_all::<T>(s, s.len())
    }

    proof fn lemma_read_bounds(s: Seq<u8>) {
        lemma_read_all_bounds::<T>(s, s.len());
    }

    fn read(input: &mut InputByteQueue) -> (r: Result<RemainingBytesArray<T>, ReadError>) {
        let ghost s0 = input@;
        let mut result: Vec<T> = Vec::new();
        proof {
            assert(result.deep_view() =~= Seq::<<T as DeepView>::V>::empty());
            assert(s0.skip(0) =~= s0);
            assert(result.deep_view() + read_all::<T>(s0, s0.len())->Ok_0.0 =~= read_all::<T>(
                s0,
                s0.len(),
            )->Ok_0.0);
        }
        while input.is_available(1)
            invariant
                s0 == old(input)@,
                input@.len() <= s0.len(),
                input@ =~= s0.skip(s0.len() - input@.len()),
                (match read_all::<T>(input@, input@.len()) {
                    Ok((vs, m)) => read_all::<T>(s0, s0.len()) == Ok::<_, ReadError>(
                        (result.deep_view() + vs, (s0.len() - input@.len()) + m),
                    ),
                    Err(e) => read_all::<T>(s0, s0.len()) == Err::<
                        (Seq<<T as DeepView>::V>, int),
                        ReadError,
                    >(e),
                }),
            decreases input@.len(),
        {
            let ghost pre = input@;
            let ghost acc = result.deep_view();
            proof {
                T::lemma_read_bounds(pre);
            }
            match T::read(input) {
                Err(e) => {
                    proof {
                        assert(pre.len() > 0);
                        assert(read_all::<T>(pre, pre.len()) == Err::<
                            (Seq<<T as DeepView>::V>, int),
                            ReadError,
                        >(e));
                    }
                    return Err(e);
                },
                Ok(v) => {
                    proof {
                        let (dv, n) = T::spec_read(pre)->Ok_0;
                        lemma_read_all_fuel::<T>(pre.skip(n), pre.skip(n).len(), (pre.len() - 1) as nat);
                        assert(s0.skip(s0.len() - pre.len()).skip(n) =~= s0.skip(
                            s0.len() - pre.len() + n,
                        ));
                    }
                    result.push(v);
                    proof {
                        assert(result.deep_view() =~= acc + seq![v.deep_view()]);
                        match read_all::<T>(input@, input@.len()) {
                            Ok((vs, m)) => {
                                assert((acc + seq![v.deep_view()]) + vs =~= acc + (seq![
                                    v.deep_view(),
                                ] + vs));
                            },
                            Err(e2) => {},
                        }
                    }
                },
            }
        }
        proof {
            assert(input@ =~= Seq::<u8>::empty());
            assert(result.deep_view() + Seq::<<T as DeepView>::V>::empty() =~= result.deep_view());
        }
        Ok(RemainingBytesArray { result })
    }
}

impl<T: Codec> Codec for RemainingBytesArray<T> {
    open spec fn fits(v: Seq<<T as DeepView>::V>) -> bool {
        T::tail_lenient() && forall|i: int| 0 <= i < v.len() ==> T::fits(#[trigger] v[i])
    }

    open spec fn tail_lenient() -> bool {
        false
    }

    proof fn lemma_wire_nonempty(v: Seq<<T as DeepView>::V>) {
    }

    proof fn lemma_round_trip(v: Seq<<T as DeepView>::V>, rest: Seq<u8>) {
        assert(wire_concat::<T>(v) + rest =~= wire_concat::<T>(v));
        lemma_read_all_round_trip::<T>(v);
    }
}

/// A homogeneous array framed by an explicit leading count, encoded with the
/// size-number type `L`. The choice of `L` is part of the type identity: the
/// same elements with a different count encoding differ on the wire.
#[derive(Debug, PartialEq)]
pub struct LengthProvidedArray<T, L> {
    pub result: Vec<T>,
    pub size: PhantomData<L>,
}

impl<T: DeepView, L> DeepView for LengthProvidedArray<T, L> {
    type V = Seq<<T as DeepView>::V>;

    open spec fn deep_view(&self) -> Seq<<T as DeepView>::V> {
        self.result.deep_view()
    }
}

impl<T, L> LengthProvidedArray<T, L> {
    /// The array holding exactly the given elements.
    pub fn new(result: Vec<T>) -> (r: LengthProvidedArray<T, L>)
        ensures
            r.result == result,
    {
        LengthProvidedArray { result, size: PhantomData }
    }
}

impl<T: Writable, L: Writable + SizeNumber> Writable for LengthProvidedArray<T, L> {
    open spec fn spec_wire(v: Seq<<T as DeepView>::V>) -> Seq<u8> {
        L::spec_wire(L::spec_of_size(v.len() as int)) + wire_concat::<T>(v)
    }

    fn write(&self, output: &mut OutputByteQueue) -> (r: Result<(), WriteError>) {
        let l = L::new_from_size(self.result.len());
        let _ = l.write(output);
        write_all::<T>(&self.result, output);
        proof {
            let lw = L::spec_wire(L::spec_of_size(self.result@.len() as int));
            assert((old(output)@ + lw) + wire_concat::<T>(self.deep_view()) =~= old(output)@ + (lw
                + wire_concat::<T>(self.deep_view())));
        }
        Ok(())
    }
}

impl<T: Readable, L: Readable + SizeNumber> Readable for LengthProvidedArray<T, L> {
    open spec fn spec_read(s: Seq<u8>) -> Result<(Seq<<T as DeepView>::V>, int), ReadError> {
        match L::spec_read(s) {
            Err(e) => Err(e),
            Ok((lv, n)) => match read_count::<T>(s.skip(n), L::spec_size(lv) as nat) {
                Err(e) => Err(e),
                Ok((vs, m)) => Ok((vs, n + m)),
            },
        }
    }

    proof fn lemma_read_bounds(s: Seq<u8>) {
        L::lemma_read_bounds(s);
        match L::spec_read(s) {
            Ok((lv, n)) => {
                lemma_read_count_bounds::<T>(s.skip(n), L::spec_size(lv) as nat);
            },
            Err(e) => {},
        }
    }

    fn read(input: &mut InputByteQueue) -> (r: Result<LengthProvidedArray<T, L>, ReadError>) {
        let ghost s0 = input@;
        let lval = match L::read(input) {
            Ok(l) => l,
            Err(e) => {
                return Err(e);
            },
        };
        let count = lval.as_size();
        let ghost s1 = input@;
        let ghost nl = s0.len() - s1.len();
        proof {
            L::lemma_read_bounds(s0);
        }
        let mut result: Vec<T> = Vec::new();
        let mut i: usize = 0;
        proof {
            assert(result.deep_view() =~= Seq::<<T as DeepView>::V>::empty());
            assert(s1.skip(0) =~= s1);
            assert(count as nat == L::spec_size(lval.deep_view()) as nat);
            assert(result.deep_view() + read_count::<T>(s1, count as nat)->Ok_0.0 =~= read_count::<
                T,
            >(s1, count as nat)->Ok_0.0);
        }
        while i < count
            invariant
                i <= count,
                s0 == old(input)@,
                L::spec_read(s0) == Ok::<_, ReadError>((lval.deep_view(), nl)),
                s1 == s0.skip(nl),
                0 <= nl <= s0.len(),
                count as int == L::spec_size(lval.deep_view()),
                input@.len() <= s1.len(),
                input@ =~= s1.skip(s1.len() - input@.len()),
                (match read_count::<T>(input@, (count - i) as nat) {
                    Ok((vs, m)) => read_count::<T>(s1, count as nat) == Ok::<_, ReadError>(
                        (result.deep_view() + vs, (s1.len() - input@.len()) + m),
                    ),
                    Err(e) => read_count::<T>(s1, count as nat) == Err::<
                        (Seq<<T as DeepView>::V>, int),
                        ReadError,
                    >(e),
                }),
            decreases count - i,
        {
            let ghost pre = input@;
            let ghost acc = result.deep_view();
            proof {
                T::lemma_read_bounds(pre);
            }
            match T::read(input) {
                Err(e) => {
                    proof {
                        assert(read_count::<T>(pre, (count - i) as nat) == Err::<
                            (Seq<<T as DeepView>::V>, int),
                            ReadError,
                        >(e));
                    }
                    return Err(e);
                },
                Ok(v) => {
                    proof {
                        let (dv, n) = T::spec_read(pre)->Ok_0;
                        assert(s1.skip(s1.len() - pre.len()).skip(n) =~= s1.skip(
                            s1.len() - pre.len() + n,
                        ));
                    }
                    result.push(v);
                    proof {
                        assert(result.deep_view() =~= acc + seq![v.deep_view()]);
                        match read_count::<T>(input@, (count - i - 1) as nat) {
                            Ok((vs, m)) => {
                                assert((acc + seq![v.deep_view()]) + vs =~= acc + (seq![
                                    v.deep_view(),
                                ] + vs));
                            },
                            Err(e2) => {},
                        }
                    }
                    i = i + 1;
                },
            }
        }
        proof {
            assert(result.deep_view() + Seq::<<T as DeepView>::V>::empty() =~= result.deep_view());
            assert(s0.skip(nl).skip(s1.len() - input@.len()) =~= s0.skip(
                nl + (s1.len() - input@.len()),
            ));
        }
        Ok(LengthProvidedArray { result, size: PhantomData })
    }
}

impl<T: Codec, L: Codec + SizeNumber> Codec for LengthProvidedArray<T, L> {
    open spec fn fits(v: Seq<<T as DeepView>::V>) -> bool {
        L::tail_lenient() && L::fits(L::spec_of_size(v.len() as int)) && L::spec_size(
            L::spec_of_size(v.len() as int),
        ) == v.len() && T::tail_lenient() && forall|i: int|
            0 <= i < v.len() ==> T::fits(#[trigger] v[i])
    }

    open spec fn tail_lenient() -> bool {
        T::tail_lenient()
    }

    proof fn lemma_wire_nonempty(v: Seq<<T as DeepView>::V>) {
        L::lemma_wire_nonempty(L::spec_of_size(v.len() as int));
    }

    proof fn lemma_round_trip(v: Seq<<T as DeepView>::V>, rest: Seq<u8>) {
        let lv = L::spec_of_size(v.len() as int);
        let lw = L::spec_wire(lv);
        let cw = wire_concat::<T>(v);
        assert((lw + cw) + rest =~= lw + (cw + rest));
        L::lemma_round_trip(lv, cw + rest);
        assert((lw + (cw + rest)).skip(lw.len() as int) =~= cw + rest);
        lemma_read_count_round_trip::<T>(v, rest);
    }
}

} // verus!
