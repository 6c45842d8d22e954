//! The Fiat-Shamir transcript ("proof stream"): an append-only log of typed
//! protocol messages with a read cursor, a canonical byte serialization, and
//! challenge derivation by hashing serialized prefixes.
use vstd::prelude::*;
use crate::algebra::{FieldElement, P};
use crate::keccak::{keccak256, digest_of};
use crate::merkle::{digests_view, u128_be_bytes, be_bytes_u128};
use crate::univariate::clone_fe_vec;

verus! {

/// A protocol message.
pub enum Object {
    Point(FieldElement),
    MerkleRoot([u8; 32]),
    CodeWord(Vec<FieldElement>),
    ColinearityTest((FieldElement, FieldElement, FieldElement)),
    MerklePath(Vec<[u8; 32]>),
}

/// The mathematical content of a message: containers become sequences.
pub enum ObjectV {
    PointV(FieldElement),
    MerkleRootV(Seq<u8>),
    CodeWordV(Seq<FieldElement>),
    ColinearityTestV((FieldElement, FieldElement, FieldElement)),
    MerklePathV(Seq<Seq<u8>>),
}

pub open spec fn obj_view(o: Object) -> ObjectV {
    match o {
        Object::Point(f) => ObjectV::PointV(f),
        Object::MerkleRoot(d) => ObjectV::MerkleRootV(d@),
        Object::CodeWord(v) => ObjectV::CodeWordV(v@),
        Object::ColinearityTest(t) => ObjectV::ColinearityTestV(t),
        Object::MerklePath(p) => ObjectV::MerklePathV(digests_view(p@)),
    }
}

/// Field elements laid out one after another, 16 bytes each.
pub open spec fn enc_fes(s: Seq<FieldElement>) -> Seq<u8>
    decreases s.len(),
{
    if s.len() == 0 {
        Seq::empty()
    } else {
        enc_fes(s.drop_last()) + u128_be_bytes(s.last().value)
    }
}

/// Digests laid out one after another, 32 bytes each.
pub open spec fn enc_digests(s: Seq<Seq<u8>>) -> Seq<u8>
    decreases s.len(),
{
    if s.len() == 0 {
        Seq::empty()
    } else {
        enc_digests(s.drop_last()) + s.last()
    }
}

/// The canonical encoding of one message: a tag byte, then the payload,
/// length-prefixed where the payload has variable length.
pub open spec fn encode_obj(o: ObjectV) -> Seq<u8> {
    match o {
        ObjectV::PointV(f) => seq![0u8] + u128_be_bytes(f.value),
        ObjectV::MerkleRootV(d) => seq![1u8] + d,
        ObjectV::CodeWordV(s) => seq![2u8] + u128_be_bytes(s.len() as u128) + enc_fes(s),
        ObjectV::ColinearityTestV(t) => seq![3u8] + u128_be_bytes(t.0.value)
            + u128_be_bytes(t.1.value) + u128_be_bytes(t.2.value),
        ObjectV::MerklePathV(p) => seq![4u8] + u128_be_bytes(p.len() as u128) + enc_digests(p),
    }
}

/// The encodings of a message sequence, concatenated.
pub open spec fn enc_objs(s: Seq<ObjectV>) -> Seq<u8>
    decreases s.len(),
{
    if s.len() == 0 {
        Seq::empty()
    } else {
        enc_objs(s.drop_last()) + encode_obj(s.last())
    }
}

/// The canonical, count-prefixed encoding of a whole message sequence.
pub open spec fn encode_stream(s: Seq<ObjectV>) -> Seq<u8> {
    u128_be_bytes(s.len() as u128) + enc_objs(s)
}

/// The Fiat-Shamir challenge bytes derived from a message sequence.
pub open spec fn stream_challenge(s: Seq<ObjectV>) -> Seq<u8> {
    digest_of(encode_stream(s))
}

/// A by-hand copy of a digest vector (the digests are `Copy`).
pub fn clone_digest_vec(v: &Vec<[u8; 32]>) -> (r: Vec<[u8; 32]>)
    ensures
        r@ == v@,
{
    let mut r: Vec<[u8; 32]> = Vec::new();
    let mut i: usize = 0;
    while i < v.len()
        invariant
            i <= v@.len(),
            r@ == v@.take(i as int),
        decreases v@.len() - i,
    {
        r.push(v[i]);
        proof {
            assert(r@ =~= v@.take(i + 1));
        }
        i = i + 1;
    }
    proof {
        assert(v@.take(v@.len() as int) =~= v@);
    }
    r
}

impl Clone for Object {
    /// A deep copy carrying the same mathematical content.
    fn clone(&self) -> (r: Self)
        ensures
            obj_view(r) == obj_view(*self),
    {
        match self {
            Object::Point(f) => Object::Point(*f),
            Object::MerkleRoot(d) => Object::MerkleRoot(*d),
            Object::CodeWord(v) => Object::CodeWord(clone_fe_vec(v)),
            Object::ColinearityTest(t) => Object::ColinearityTest(*t),
            Object::MerklePath(p) => Object::MerklePath(clone_digest_vec(p)),
        }
    }
}

/// Equality of two digest vectors.
fn eq_digest_vecs(a: &Vec<[u8; 32]>, b: &Vec<[u8; 32]>) -> (r: bool)
    ensures
        r == (digests_view(a@) == digests_view(b@)),
{
    if a.len() != b.len() {
        proof {
            assert(digests_view(a@).len() != digests_view(b@).len());
        }
        return false;
    }
    let mut i: usize = 0;
    while i < a.len()
        invariant
            i <= a@.len(),
            a@.len() == b@.len(),
            forall|t: int| 0 <= t < i ==> (#[trigger] a@[t])@ == b@[t]@,
        decreases a@.len() - i,
    {
        if !crate::merkle::eq32(&a[i], &b[i]) {
            proof {
                assert(digests_view(a@)[i as int] != digests_view(b@)[i as int]);
            }
            return false;
        }
        i = i + 1;
    }
    proof {
        assert(digests_view(a@) =~= digests_view(b@));
    }
    true
}

/// Equality of two field-element vectors.
fn eq_fe_vecs(a: &Vec<FieldElement>, b: &Vec<FieldElement>) -> (r: bool)
    ensures
        r == (a@ == b@),
{
    if a.len() != b.len() {
        proof {
            assert(a@.len() != b@.len());
        }
        return false;
    }
    let mut i: usize = 0;
    while i < a.len()
        invariant
            i <= a@.len(),
            a@.len() == b@.len(),
            forall|t: int| 0 <= t < i ==> a@[t] == b@[t],
        decreases a@.len() - i,
    {
        if a[i].value != b[i].value {
            return false;
        }
        i = i + 1;
    }
    proof {
        assert(a@ =~= b@);
    }
    true
}

impl PartialEq for Object {
    /// Structural equality of messages, containers compared element-wise.
    fn eq(&self, other: &Self) -> (r: bool) {
        match (self, other) {
            (Object::Point(a), Object::Point(b)) => a.value == b.value,
            (Object::MerkleRoot(a), Object::MerkleRoot(b)) => crate::merkle::eq32(a, b),
            (Object::CodeWord(a), Object::CodeWord(b)) => eq_fe_vecs(a, b),
            (Object::ColinearityTest(a), Object::ColinearityTest(b)) => {
                a.0.value == b.0.value && a.1.value == b.1.value && a.2.value == b.2.value
            },
            (Object::MerklePath(a), Object::MerklePath(b)) => eq_digest_vecs(a, b),
            _ => false,
        }
    }
}

impl vstd::std_specs::cmp::PartialEqSpecImpl for Object {
    open spec fn obeys_eq_spec() -> bool {
        true
    }

    open spec fn eq_spec(&self, other: &Object) -> bool {
        obj_view(*self) == obj_view(*other)
    }
}

/// The append-only transcript with a monotone read cursor.
pub struct ProofStream {
    pub objects: Vec<Object>,
    pub read_index: usize,
}

impl ProofStream {
    /// The logged message sequence, as mathematical content.
    pub open spec fn log(self) -> Seq<ObjectV> {
        self.objects@.map_values(|o: Object| obj_view(o))
    }

    pub fn new() -> (r: ProofStream)
        ensures
            r.log().len() == 0,
            r.read_index == 0,
    {
        let r = ProofStream { objects: Vec::new(), read_index: 0 };
        proof {
            assert(r.log() =~= Seq::<ObjectV>::empty());
        }
        r
    }

    /// Append one message to the log.
    pub fn push(&mut self, obj: &Object)
        ensures
            final(self).log() == old(self).log().push(obj_view(*obj)),
            final(self).read_index == old(self).read_index,
    {
        self.objects.push(obj.clone());
        proof {
            assert(self.log() =~= old(self).log().push(obj_view(*obj)));
        }
    }

    /// Read the next unread message; the cursor must not be exhausted.
    pub fn pull(&mut self) -> (r: Object)
        requires
            old(self).read_index < old(self).log().len(),
        ensures
            obj_view(r) == old(self).log()[old(self).read_index as int],
            final(self).log() == old(self).log(),
            final(self).read_index == old(self).read_index + 1,
    {
        let n = self.objects.len();
        let obj = self.objects[self.read_index].clone();
        self.read_index = self.read_index + 1;
        obj
    }

    /// The canonical bytes of the first `n` logged messages,
    /// count-prefixed.
    fn serial_prefix(&self, n: usize) -> (r: Vec<u8>)
        requires
            n <= self.log().len(),
        ensures
            r@ == encode_stream(self.log().take(n as int)),
    {
        let mut out: Vec<u8> = Vec::new();
        let header = be_bytes_u128(n as u128);
        append_bytes(&mut out, &header);
        proof {
            assert(out@ =~= u128_be_bytes(n as u128));
            assert(enc_objs(self.log().take(0)) =~= Seq::<u8>::empty());
            assert(out@ + enc_objs(self.log().take(0)) =~= out@);
        }
        let mut i: usize = 0;
        while i < n
            invariant
                i <= n,
                n <= self.log().len(),
                out@ == u128_be_bytes(n as u128) + enc_objs(self.log().take(i as int)),
            decreases n - i,
        {
            encode_object(&mut out, &self.objects[i]);
            proof {
                assert(self.log().take(i + 1).drop_last() =~= self.log().take(i as int));
                assert(self.log().take(i + 1).last() == self.log()[i as int]);
                assert((u128_be_bytes(n as u128) + enc_objs(self.log().take(i as int)))
                    + encode_obj(self.log()[i as int])
                    =~= u128_be_bytes(n as u128) + enc_objs(self.log().take(i + 1)));
            }
            i = i + 1;
        }
        out
    }

    /// The canonical byte encoding of the whole log; `deserial` recovers
    /// the exact message sequence from it.
    pub fn serial(&self) -> (r: Vec<u8>)
        ensures
            r@ == encode_stream(self.log()),
    {
        let r = self.serial_prefix(self.objects.len());
        proof {
            assert(self.log().take(self.log().len() as int) =~= self.log());
        }
        r
    }

    /// The challenge bytes a prover derives: the digest of everything
    /// pushed so far.
    pub fn prover_fiat_shamir(&self) -> (r: [u8; 32])
        ensures
            r@ == stream_challenge(self.log()),
    {
        let bytes = self.serial();
        keccak256(bytes.as_slice())
    }

    /// The challenge bytes a verifier derives: the digest of exactly the
    /// messages read so far. A verifier whose cursor has consumed the
    /// prover's messages up to the same point derives the same challenge.
    pub fn verifier_fiat_shamir(&self) -> (r: [u8; 32])
        requires
            self.read_index <= self.log().len(),
        ensures
            r@ == stream_challenge(self.log().take(self.read_index as int)),
    {
        let bytes = self.serial_prefix(self.read_index);
        keccak256(bytes.as_slice())
    }

    /// Decode a canonical byte string back into a transcript with the
    /// cursor reset. Any accepted input is byte-for-byte the canonical
    /// encoding of the decoded log; and the canonical encoding of any
    /// well-formed message sequence is accepted and decoded back to
    /// exactly that sequence, so the encoding round-trips.
    #[verifier::rlimit(100)]
    pub fn deserial(bb: &Vec<u8>) -> (r: Option<ProofStream>)
        ensures
            r matches Some(ps) ==> ps.read_index == 0
                && bb@ == encode_stream(ps.log()),
            forall|l: Seq<ObjectV>| #[trigger] wire_wf(l) && bb@ == encode_stream(l)
                ==> (r matches Some(ps) && ps.log() == l),
    {
        let mut pos: usize = 0;
        let count_opt = read_u128(bb, &mut pos);
        proof {
            assert forall|l: Seq<ObjectV>| wire_wf(l) && bb@ == encode_stream(l)
                implies (count_opt is Some && count_opt->0 == l.len() as u128
                    && count_opt->0 <= usize::MAX as u128) by {
                assert(u128_be_bytes(l.len() as u128).len() == 16);
                assert(bb@.len() >= 16);
                assert(count_opt is Some);
                assert(bb@.subrange(0, 16)
                    =~= u128_be_bytes(l.len() as u128));
                lemma_be_bytes_injective(count_opt->0, l.len() as u128);
            }
        }
        let count = match count_opt {
            Some(c) => c,
            None => {
                return None;
            },
        };
        if count > (usize::MAX as u128) {
            return None;
        }
        let ghost cnt = count;
        let count = count as usize;
        let mut objects: Vec<Object> = Vec::new();
        let mut i: usize = 0;
        proof {
            assert(objects@.map_values(|o: Object| obj_view(o)) =~= Seq::<ObjectV>::empty());
            assert(bb@.subrange(0, pos as int)
                =~= u128_be_bytes(cnt)
                    + enc_objs(objects@.map_values(|o: Object| obj_view(o))));
        }
        while i < count
            invariant
                pos <= bb@.len(),
                i <= count,
                cnt == count as u128,
                objects@.len() == i,
                bb@.subrange(0, pos as int)
                    == u128_be_bytes(cnt)
                        + enc_objs(objects@.map_values(|o: Object| obj_view(o))),
                forall|l: Seq<ObjectV>| #[trigger] wire_wf(l) && bb@ == encode_stream(l)
                    ==> cnt == l.len() as u128 && i <= l.len()
                        && objects@.map_values(|o: Object| obj_view(o)) == l.take(i as int),
            decreases count - i,
        {
            let ghost pm = pos as int;
            let ghost oold = objects@;
            proof {
                // under the round-trip hypothesis, the bytes at the cursor
                // carry the encoding of the next witness message
                assert forall|l: Seq<ObjectV>| wire_wf(l) && bb@ == encode_stream(l)
                    implies obj_witness(bb@, pm, l[i as int]) by {
                    let log = oold.map_values(|o: Object| obj_view(o));
                    assert(log == l.take(i as int));
                    lemma_enc_objs_split(l, i as int);
                    assert(u128_be_bytes(cnt).len() == 16);
                    assert(bb@.subrange(0, pm).len() == pm);
                    assert(pm == 16 + enc_objs(l.take(i as int)).len());
                    let c_rest = enc_objs_from(l, i as int);
                    assert(bb@ == u128_be_bytes(cnt) + enc_objs(l.take(i as int)) + c_rest);
                    assert(bb@.len() == pm + c_rest.len());
                    assert(bb@.subrange(pm, bb@.len() as int) =~= c_rest);
                    assert(c_rest == encode_obj(l[i as int]) + enc_objs_from(l, i + 1));
                    lemma_subrange_slice(bb@, pm, c_rest, 0,
                        encode_obj(l[i as int]).len() as int);
                    assert(c_rest.subrange(0, encode_obj(l[i as int]).len() as int)
                        =~= encode_obj(l[i as int]));
                    assert(obj_wire_wf(l[i as int]));
                }
            }
            let obj_opt = read_object(bb, &mut pos);
            match obj_opt {
                Some(o) => {
                    let ghost ov = obj_view(o);
                    objects.push(o);
                    proof {
                        let log = objects@.map_values(|x: Object| obj_view(x));
                        let logold = oold.map_values(|x: Object| obj_view(x));
                        assert(log.drop_last() =~= logold);
                        assert(log.last() == ov);
                        assert(enc_objs(log) == enc_objs(logold) + encode_obj(ov));
                        assert(bb@.subrange(0, pos as int)
                            =~= bb@.subrange(0, pm) + bb@.subrange(pm, pos as int));
                        assert(u128_be_bytes(cnt) + enc_objs(logold) + encode_obj(ov)
                            =~= u128_be_bytes(cnt) + enc_objs(log));
                        // the recovered message extends the witness prefix
                        assert forall|l: Seq<ObjectV>| wire_wf(l) && bb@ == encode_stream(l)
                            implies cnt == l.len() as u128 && i + 1 <= l.len()
                                && log == l.take(i + 1) by {
                            assert(obj_witness(bb@, pm, l[i as int]));
                            assert(ov == l[i as int]);
                            assert(log =~= l.take(i + 1));
                        }
                    }
                },
                None => {
                    proof {
                        assert forall|l: Seq<ObjectV>|
                            !(wire_wf(l) && bb@ == encode_stream(l)) by {
                            if wire_wf(l) && bb@ == encode_stream(l) {
                                assert(obj_witness(bb@, pm, l[i as int]));
                                assert(obj_opt is Some);
                            }
                        }
                    }
                    return None;
                },
            }
            i = i + 1;
        }
        if pos != bb.len() {
            proof {
                assert forall|l: Seq<ObjectV>|
                    !(wire_wf(l) && bb@ == encode_stream(l)) by {
                    if wire_wf(l) && bb@ == encode_stream(l) {
                        let log = objects@.map_values(|o: Object| obj_view(o));
                        assert(log == l.take(count as int));
                        assert(l.take(count as int) =~= l);
                        assert(bb@.subrange(0, pos as int) =~= bb@);
                    }
                }
            }
            return None;
        }
        let r = ProofStream { objects, read_index: 0 };
        proof {
            assert(bb@.subrange(0, bb@.len() as int) =~= bb@);
            assert(r.log().len() as u128 == cnt);
            assert(encode_stream(r.log()) == u128_be_bytes(cnt) + enc_objs(r.log()));
            assert forall|l: Seq<ObjectV>| wire_wf(l) && bb@ == encode_stream(l)
                implies r.log() == l by {
                assert(r.log() == l.take(count as int));
                assert(l.take(count as int) =~= l);
            }
        }
        Some(r)
    }
}

/// Append a byte vector.
fn append_bytes(out: &mut Vec<u8>, b: &Vec<u8>)
    ensures
        final(out)@ == old(out)@ + b@,
{
    let mut i: usize = 0;
    while i < b.len()
        invariant
            i <= b@.len(),
            out@ == old(out)@ + b@.take(i as int),
        decreases b@.len() - i,
    {
        out.push(b[i]);
        proof {
            assert(old(out)@ + b@.take(i as int) + seq![b@[i as int]]
                =~= old(out)@ + b@.take(i + 1));
        }
        i = i + 1;
    }
    proof {
        assert(old(out)@ + b@.take(b@.len() as int) =~= old(out)@ + b@);
    }
}

/// Append one 32-byte digest.
fn append_digest(out: &mut Vec<u8>, d: &[u8; 32])
    ensures
        final(out)@ == old(out)@ + d@,
{
    let mut i: usize = 0;
    while i < 32
        invariant
            i <= 32,
            out@ == old(out)@ + d@.take(i as int),
        decreases 32 - i,
    {
        out.push(d[i]);
        proof {
            assert(old(out)@ + d@.take(i as int) + seq![d@[i as int]]
                =~= old(out)@ + d@.take(i + 1));
        }
        i = i + 1;
    }
    proof {
        assert(old(out)@ + d@.take(32) =~= old(out)@ + d@);
    }
}

/// Append one field element, 16 bytes big-endian.
fn append_fe(out: &mut Vec<u8>, f: FieldElement)
    ensures
        final(out)@ == old(out)@ + u128_be_bytes(f.value),
{
    let b = be_bytes_u128(f.value);
    append_bytes(out, &b);
}

/// Append the canonical encoding of one message.
fn encode_object(out: &mut Vec<u8>, obj: &Object)
    ensures
        final(out)@ == old(out)@ + encode_obj(obj_view(*obj)),
{
    match obj {
        Object::Point(f) => {
            out.push(0);
            proof {
                assert(out@ =~= old(out)@ + seq![0u8]);
            }
            append_fe(out, *f);
            proof {
                assert(old(out)@ + seq![0u8] + u128_be_bytes(f.value)
                    =~= old(out)@ + (seq![0u8] + u128_be_bytes(f.value)));
            }
        },
        Object::MerkleRoot(d) => {
            out.push(1);
            proof {
                assert(out@ =~= old(out)@ + seq![1u8]);
            }
            append_digest(out, d);
            proof {
                assert(old(out)@ + seq![1u8] + d@ =~= old(out)@ + (seq![1u8] + d@));
            }
        },
        Object::CodeWord(v) => {
            out.push(2);
            proof {
                assert(out@ =~= old(out)@ + seq![2u8]);
            }
            let header = be_bytes_u128(v.len() as u128);
            append_bytes(out, &header);
            let ghost base = old(out)@ + seq![2u8] + u128_be_bytes(v@.len() as u128);
            proof {
                assert(enc_fes(v@.take(0)) =~= Seq::<u8>::empty());
                assert(out@ + enc_fes(v@.take(0)) =~= out@);
            }
            let mut i: usize = 0;
            while i < v.len()
                invariant
                    i <= v@.len(),
                    out@ == base + enc_fes(v@.take(i as int)),
                decreases v@.len() - i,
            {
                append_fe(out, v[i]);
                proof {
                    assert(v@.take(i + 1).drop_last() =~= v@.take(i as int));
                    assert(v@.take(i + 1).last() == v@[i as int]);
                    assert(base + enc_fes(v@.take(i as int)) + u128_be_bytes(v@[i as int].value)
                        =~= base + enc_fes(v@.take(i + 1)));
                }
                i = i + 1;
            }
            proof {
                assert(v@.take(v@.len() as int) =~= v@);
                assert(base + enc_fes(v@)
                    =~= old(out)@ + (seq![2u8] + u128_be_bytes(v@.len() as u128) + enc_fes(v@)));
            }
        },
        Object::ColinearityTest(t) => {
            out.push(3);
            proof {
                assert(out@ =~= old(out)@ + seq![3u8]);
            }
            append_fe(out, t.0);
            append_fe(out, t.1);
            append_fe(out, t.2);
            proof {
                assert(old(out)@ + seq![3u8] + u128_be_bytes(t.0.value)
                    + u128_be_bytes(t.1.value) + u128_be_bytes(t.2.value)
                    =~= old(out)@ + (seq![3u8] + u128_be_bytes(t.0.value)
                        + u128_be_bytes(t.1.value) + u128_be_bytes(t.2.value)));
            }
        },
        Object::MerklePath(p) => {
            out.push(4);
            proof {
                assert(out@ =~= old(out)@ + seq![4u8]);
            }
            let header = be_bytes_u128(p.len() as u128);
            append_bytes(out, &header);
            let ghost base = old(out)@ + seq![4u8] + u128_be_bytes(p@.len() as u128);
            proof {
                assert(digests_view(p@).len() == p@.len());
                assert(enc_digests(digests_view(p@).take(0)) =~= Seq::<u8>::empty());
                assert(out@ + enc_digests(digests_view(p@).take(0)) =~= out@);
            }
            let mut i: usize = 0;
            while i < p.len()
                invariant
                    i <= p@.len(),
                    out@ == base + enc_digests(digests_view(p@).take(i as int)),
                decreases p@.len() - i,
            {
                append_digest(out, &p[i]);
                proof {
                    let dv = digests_view(p@);
                    assert(dv.take(i + 1).drop_last() =~= dv.take(i as int));
                    assert(dv.take(i + 1).last() == dv[i as int]);
                    assert(dv[i as int] == p@[i as int]@);
                    assert(base + enc_digests(dv.take(i as int)) + p@[i as int]@
                        =~= base + enc_digests(dv.take(i + 1)));
                }
                i = i + 1;
            }
            proof {
                let dv = digests_view(p@);
                assert(dv.take(dv.len() as int) =~= dv);
                assert(base + enc_digests(dv)
                    =~= old(out)@ + (seq![4u8] + u128_be_bytes(p@.len() as u128)
                        + enc_digests(dv)));
            }
        },
    }
}

/// Assembling sixteen bytes big-endian and then extracting each byte by
/// shift and mask gives the bytes back.
#[verifier::rlimit(100)]
proof fn lemma_u128_assemble(v: u128, b0: u8, b1: u8, b2: u8, b3: u8, b4: u8, b5: u8,
    b6: u8, b7: u8, b8: u8, b9: u8, b10: u8, b11: u8, b12: u8, b13: u8, b14: u8, b15: u8)
    by (bit_vector)
    requires
        v == ((b0 as u128) << 120) | ((b1 as u128) << 112) | ((b2 as u128) << 104)
            | ((b3 as u128) << 96) | ((b4 as u128) << 88) | ((b5 as u128) << 80)
            | ((b6 as u128) << 72) | ((b7 as u128) << 64) | ((b8 as u128) << 56)
            | ((b9 as u128) << 48) | ((b10 as u128) << 40) | ((b11 as u128) << 32)
            | ((b12 as u128) << 24) | ((b13 as u128) << 16) | ((b14 as u128) << 8)
            | (b15 as u128),
    ensures
        ((v >> 120) & 0xff) as u8 == b0,
        ((v >> 112) & 0xff) as u8 == b1,
        ((v >> 104) & 0xff) as u8 == b2,
        ((v >> 96) & 0xff) as u8 == b3,
        ((v >> 88) & 0xff) as u8 == b4,
        ((v >> 80) & 0xff) as u8 == b5,
        ((v >> 72) & 0xff) as u8 == b6,
        ((v >> 64) & 0xff) as u8 == b7,
        ((v >> 56) & 0xff) as u8 == b8,
        ((v >> 48) & 0xff) as u8 == b9,
        ((v >> 40) & 0xff) as u8 == b10,
        ((v >> 32) & 0xff) as u8 == b11,
        ((v >> 24) & 0xff) as u8 == b12,
        ((v >> 16) & 0xff) as u8 == b13,
        ((v >> 8) & 0xff) as u8 == b14,
        (v & 0xff) as u8 == b15,
{
}

/// Read one big-endian 16-byte integer, advancing the cursor; what was
/// consumed is exactly the canonical encoding of the value read.
#[verifier::rlimit(100)]
fn read_u128(bb: &Vec<u8>, pos: &mut usize) -> (r: Option<u128>)
    requires
        *old(pos) <= bb@.len(),
    ensures
        *final(pos) <= bb@.len(),
        *final(pos) >= *old(pos),
        r matches Some(v) ==> *final(pos) == *old(pos) + 16
            && bb@.subrange(*old(pos) as int, *final(pos) as int) == u128_be_bytes(v),
        r is None ==> *final(pos) == *old(pos),
        *old(pos) + 16 <= bb@.len() ==> r is Some,
{
    if bb.len() - *pos < 16 {
        return None;
    }
    let start = *pos;
    let b0 = bb[start];
    let b1 = bb[start + 1];
    let b2 = bb[start + 2];
    let b3 = bb[start + 3];
    let b4 = bb[start + 4];
    let b5 = bb[start + 5];
    let b6 = bb[start + 6];
    let b7 = bb[start + 7];
    let b8 = bb[start + 8];
    let b9 = bb[start + 9];
    let b10 = bb[start + 10];
    let b11 = bb[start + 11];
    let b12 = bb[start + 12];
    let b13 = bb[start + 13];
    let b14 = bb[start + 14];
    let b15 = bb[start + 15];
    let v: u128 = ((b0 as u128) << 120) | ((b1 as u128) << 112) | ((b2 as u128) << 104)
        | ((b3 as u128) << 96) | ((b4 as u128) << 88) | ((b5 as u128) << 80)
        | ((b6 as u128) << 72) | ((b7 as u128) << 64) | ((b8 as u128) << 56)
        | ((b9 as u128) << 48) | ((b10 as u128) << 40) | ((b11 as u128) << 32)
        | ((b12 as u128) << 24) | ((b13 as u128) << 16) | ((b14 as u128) << 8)
        | (b15 as u128);
    proof {
        lemma_u128_assemble(v, b0, b1, b2, b3, b4, b5, b6, b7, b8, b9, b10, b11, b12,
            b13, b14, b15);
        let sub = bb@.subrange(start as int, start as int + 16);
        assert forall|i: int| 0 <= i < 16
            implies u128_be_bytes(v)[i] == sub[i] by {
            assert(u128_be_bytes(v)[i] == crate::merkle::be_byte(v, i));
            if i == 0 {
                assert(sub[0] == b0);
                assert(((15 - 0) * 8) as u128 == 120);
                assert(crate::merkle::be_byte(v, 0) == b0);
            } else if i == 1 {
                assert(sub[1] == b1);
                assert(((15 - 1) * 8) as u128 == 112);
                assert(crate::merkle::be_byte(v, 1) == b1);
            } else if i == 2 {
                assert(sub[2] == b2);
                assert(((15 - 2) * 8) as u128 == 104);
                assert(crate::merkle::be_byte(v, 2) == b2);
            } else if i == 3 {
                assert(sub[3] == b3);
                assert(((15 - 3) * 8) as u128 == 96);
                assert(crate::merkle::be_byte(v, 3) == b3);
            } else if i == 4 {
                assert(sub[4] == b4);
                assert(((15 - 4) * 8) as u128 == 88);
                assert(crate::merkle::be_byte(v, 4) == b4);
            } else if i == 5 {
                assert(sub[5] == b5);
                assert(((15 - 5) * 8) as u128 == 80);
                assert(crate::merkle::be_byte(v, 5) == b5);
            } else if i == 6 {
                assert(sub[6] == b6);
                assert(((15 - 6) * 8) as u128 == 72);
                assert(crate::merkle::be_byte(v, 6) == b6);
            } else if i == 7 {
                assert(sub[7] == b7);
                assert(((15 - 7) * 8) as u128 == 64);
                assert(crate::merkle::be_byte(v, 7) == b7);
            } else if i == 8 {
                assert(sub[8] == b8);
                assert(((15 - 8) * 8) as u128 == 56);
                assert(crate::merkle::be_byte(v, 8) == b8);
            } else if i == 9 {
                assert(sub[9] == b9);
                assert(((15 - 9) * 8) as u128 == 48);
                assert(crate::merkle::be_byte(v, 9) == b9);
            } else if i == 10 {
                assert(sub[10] == b10);
                assert(((15 - 10) * 8) as u128 == 40);
                assert(crate::merkle::be_byte(v, 10) == b10);
            } else if i == 11 {
                assert(sub[11] == b11);
                assert(((15 - 11) * 8) as u128 == 32);
                assert(crate::merkle::be_byte(v, 11) == b11);
            } else if i == 12 {
                assert(sub[12] == b12);
                assert(((15 - 12) * 8) as u128 == 24);
                assert(crate::merkle::be_byte(v, 12) == b12);
            } else if i == 13 {
                assert(sub[13] == b13);
                assert(((15 - 13) * 8) as u128 == 16);
                assert(crate::merkle::be_byte(v, 13) == b13);
            } else if i == 14 {
                assert(sub[14] == b14);
                assert(((15 - 14) * 8) as u128 == 8);
                assert(crate::merkle::be_byte(v, 14) == b14);
            } else {
                assert(sub[15] == b15);
                assert(((15 - 15) * 8) as u128 == 0);
                assert(v >> 0 == v) by (bit_vector);
                assert(crate::merkle::be_byte(v, 15) == b15);
            }
        }
        assert(u128_be_bytes(v) =~= sub);
    }
    *pos = start + 16;
    Some(v)
}

/// Read one 32-byte digest, advancing the cursor.
fn read_digest(bb: &Vec<u8>, pos: &mut usize) -> (r: Option<[u8; 32]>)
    requires
        *old(pos) <= bb@.len(),
    ensures
        *final(pos) <= bb@.len(),
        *final(pos) >= *old(pos),
        r matches Some(d) ==> *final(pos) == *old(pos) + 32
            && bb@.subrange(*old(pos) as int, *final(pos) as int) == d@,
        *old(pos) + 32 <= bb@.len() ==> r is Some,
{
    if bb.len() - *pos < 32 {
        return None;
    }
    let start = *pos;
    let mut i: usize = 0;
    let blen = bb.len();
    let mut out: Vec<u8> = Vec::new();
    while i < 32
        invariant
            i <= 32,
            start + 32 <= blen,
            blen == bb@.len(),
            out@ == bb@.subrange(start as int, start + i),
        decreases 32 - i,
    {
        out.push(bb[start + i]);
        proof {
            assert(out@ =~= bb@.subrange(start as int, start + i + 1));
        }
        i = i + 1;
    }
    let d = vec_to_digest(&out);
    *pos = start + 32;
    Some(d)
}

/// Copy 32 bytes from a vector into a fixed array.
#[verifier::external_body]
fn vec_to_digest(v: &Vec<u8>) -> (r: [u8; 32])
    requires
        v@.len() == 32,
    ensures
        r@ == v@,
{
    let mut d = [0u8; 32];
    d.copy_from_slice(v.as_slice());
    d
}

/// Read one field element (16 bytes), rejecting unreduced residues.
fn read_fe(bb: &Vec<u8>, pos: &mut usize) -> (r: Option<FieldElement>)
    requires
        *old(pos) <= bb@.len(),
    ensures
        *final(pos) <= bb@.len(),
        *final(pos) >= *old(pos),
        r matches Some(f) ==> f.wf() && *final(pos) == *old(pos) + 16
            && bb@.subrange(*old(pos) as int, *final(pos) as int)
                == u128_be_bytes(f.value),
        forall|v0: u128| v0 < P && *old(pos) + 16 <= bb@.len()
            && bb@.subrange(*old(pos) as int, *old(pos) + 16) == u128_be_bytes(v0)
            ==> (r matches Some(f) && f.value == v0),
{
    let v = match read_u128(bb, pos) {
        Some(v) => v,
        None => {
            return None;
        },
    };
    if v >= P {
        proof {
            assert forall|v0: u128| v0 < P && *old(pos) + 16 <= bb@.len()
                && bb@.subrange(*old(pos) as int, *old(pos) + 16) == u128_be_bytes(v0)
                implies false by {
                lemma_be_bytes_injective(v, v0);
            }
        }
        return None;
    }
    proof {
        assert forall|v0: u128| v0 < P && *old(pos) + 16 <= bb@.len()
            && bb@.subrange(*old(pos) as int, *old(pos) + 16) == u128_be_bytes(v0)
            implies v == v0 by {
            lemma_be_bytes_injective(v, v0);
        }
    }
    Some(FieldElement { value: v })
}

/// The bytes of `bb` from `p0` on carry the encoding of the well-formed
/// message `o`.
pub open spec fn obj_witness(bb: Seq<u8>, p0: int, o: ObjectV) -> bool {
    obj_wire_wf(o)
        && p0 + encode_obj(o).len() <= bb.len()
        && bb.subrange(p0, p0 + encode_obj(o).len() as int) == encode_obj(o)
}

/// The encodings of the messages from index i on, concatenated.
pub open spec fn enc_objs_from(l: Seq<ObjectV>, i: int) -> Seq<u8>
    decreases l.len() - i,
{
    if i < 0 || i >= l.len() {
        Seq::empty()
    } else {
        encode_obj(l[i]) + enc_objs_from(l, i + 1)
    }
}

/// The whole encoding splits at any index into the prefix encodings and
/// the suffix encodings.
proof fn lemma_enc_objs_split(l: Seq<ObjectV>, i: int)
    requires
        0 <= i <= l.len(),
    ensures
        enc_objs(l) == enc_objs(l.take(i)) + enc_objs_from(l, i),
    decreases l.len() - i,
{
    if i == l.len() {
        assert(l.take(i) =~= l);
        assert(enc_objs(l.take(i)) + enc_objs_from(l, i) =~= enc_objs(l));
    } else {
        lemma_enc_objs_split(l, i + 1);
        assert(l.take(i + 1).drop_last() =~= l.take(i));
        assert(l.take(i + 1).last() == l[i]);
        assert(enc_objs(l.take(i + 1)) == enc_objs(l.take(i)) + encode_obj(l[i]));
        assert(enc_objs(l.take(i)) + encode_obj(l[i]) + enc_objs_from(l, i + 1)
            =~= enc_objs(l.take(i)) + (encode_obj(l[i]) + enc_objs_from(l, i + 1)));
    }
}

/// Read one tagged message, advancing the cursor. What was consumed is
/// exactly the canonical encoding of the message read; and whenever the
/// bytes at the cursor carry the encoding of some well-formed message, the
/// read succeeds and recovers exactly that message.
#[verifier::rlimit(100)]
fn read_object(bb: &Vec<u8>, pos: &mut usize) -> (r: Option<Object>)
    requires
        *old(pos) <= bb@.len(),
    ensures
        *final(pos) <= bb@.len(),
        *final(pos) >= *old(pos),
        r matches Some(o) ==> bb@.subrange(*old(pos) as int, *final(pos) as int)
            == encode_obj(obj_view(o)),
        forall|o: ObjectV| #[trigger] obj_witness(bb@, *old(pos) as int, o)
            ==> (r matches Some(ro) && obj_view(ro) == o
                && *final(pos) == *old(pos) + encode_obj(o).len()),
{
    let ghost p0 = *pos as int;
    if *pos >= bb.len() {
        proof {
            assert forall|o: ObjectV| !obj_witness(bb@, p0, o) by {
                if obj_witness(bb@, p0, o) {
                    lemma_encode_obj_parts(o);
                }
            }
        }
        return None;
    }
    let tag = bb[*pos];
    *pos = *pos + 1;
    proof {
        assert(bb@.subrange(p0, p0 + 1) =~= seq![tag]);
        // any witness carries this very tag byte
        assert forall|o: ObjectV| obj_witness(bb@, p0, o) implies obj_tag(o) == tag by {
            lemma_encode_obj_parts(o);
            assert(bb@.subrange(p0, p0 + encode_obj(o).len() as int)[0] == bb@[p0]);
        }
    }
    if tag == 0 {
        let ghost pf = *pos as int;
        let fr = read_fe(bb, pos);
        proof {
            assert forall|o: ObjectV| obj_witness(bb@, p0, o)
                implies (fr is Some && o == ObjectV::PointV(fr->0)
                    && *pos == p0 + encode_obj(o).len()) by {
                lemma_encode_obj_parts(o);
                let g = o->PointV_0;
                lemma_subrange_slice(bb@, p0, encode_obj(o), 1, 17);
                assert(bb@.subrange(pf, pf + 16) == u128_be_bytes(g.value));
                assert(fr is Some && fr->0.value == g.value);
                assert(fr->0 == g);
            }
        }
        match fr {
            Some(f) => {
                proof {
                    assert forall|o: ObjectV| obj_witness(bb@, p0, o)
                        implies obj_view(Object::Point(f)) == o
                            && *pos == p0 + encode_obj(o).len() by {
                        assert(f == fr->0);
                    }
                }
                Some(Object::Point(f))
            },
            None => None,
        }
    } else if tag == 1 {
        let ghost pf = *pos as int;
        let dr = read_digest(bb, pos);
        proof {
            assert forall|o: ObjectV| obj_witness(bb@, p0, o)
                implies (dr is Some && o == ObjectV::MerkleRootV(dr->0@)
                    && *pos == p0 + encode_obj(o).len()) by {
                lemma_encode_obj_parts(o);
                let dd = o->MerkleRootV_0;
                assert(dd.len() == 32);
                lemma_subrange_slice(bb@, p0, encode_obj(o), 1, 33);
                assert(bb@.subrange(pf, pf + 32) == dd);
                assert(dr is Some);
                assert(dr->0@ == bb@.subrange(pf, pf + 32));
            }
        }
        match dr {
            Some(d) => {
                proof {
                    assert forall|o: ObjectV| obj_witness(bb@, p0, o)
                        implies obj_view(Object::MerkleRoot(d)) == o
                            && *pos == p0 + encode_obj(o).len() by {
                        assert(d@ == dr->0@);
                    }
                }
                Some(Object::MerkleRoot(d))
            },
            None => None,
        }
    } else if tag == 2 {
        let nr = read_u128(bb, pos);
        proof {
            assert forall|o: ObjectV| obj_witness(bb@, p0, o)
                implies (nr is Some
                    && nr->0 == (o->CodeWordV_0).len() as u128
                    && nr->0 <= usize::MAX as u128) by {
                lemma_encode_obj_parts(o);
                let ss = o->CodeWordV_0;
                lemma_subrange_slice(bb@, p0, encode_obj(o), 1, 17);
                assert(bb@.subrange(p0 + 1, p0 + 17) == u128_be_bytes(ss.len() as u128));
                assert(nr is Some);
                lemma_be_bytes_injective(nr->0, ss.len() as u128);
            }
        }
        let n = match nr {
            Some(n) => n,
            None => {
                return None;
            },
        };
        if n > (usize::MAX as u128) {
            return None;
        }
        proof {
            assert(bb@.subrange(p0, *pos as int)
                =~= seq![2u8] + u128_be_bytes(n));
        }
        let ghost cnt = n;
        let n = n as usize;
        let mut v: Vec<FieldElement> = Vec::new();
        let mut i: usize = 0;
        while i < n
            invariant
                *pos <= bb@.len(),
                i <= n,
                v@.len() == i,
                cnt == n as u128,
                bb@.subrange(p0, *pos as int)
                    == seq![2u8] + u128_be_bytes(cnt) + enc_fes(v@),
                0 <= p0 <= *pos,
                p0 == *old(pos),
            decreases n - i,
        {
            let ghost pm = *pos as int;
            let ghost vold = v@;
            proof {
                lemma_enc_fes_props(vold);
                assert(u128_be_bytes(cnt).len() == 16);
                assert(bb@.subrange(p0, pm).len() == pm - p0);
                assert((seq![2u8] + u128_be_bytes(cnt) + enc_fes(vold)).len()
                    == 17 + 16 * vold.len());
                assert(pm == p0 + 17 + 16 * i);
                // a witness hands this iteration a well-formed element
                assert forall|o: ObjectV| obj_witness(bb@, p0, o)
                    implies (o matches ObjectV::CodeWordV(ss) && ss.len() == n
                        && pm + 16 <= bb@.len()
                        && bb@.subrange(pm, pm + 16)
                            == u128_be_bytes(ss[i as int].value)
                        && ss[i as int].wf()) by {
                    lemma_encode_obj_parts(o);
                    assert(bb@.subrange(p0, p0 + encode_obj(o).len() as int)[0] == bb@[p0]);
                    assert(bb@.subrange(p0, *pos as int)[0] == bb@[p0]);
                    assert((seq![2u8] + u128_be_bytes(cnt) + enc_fes(vold))[0] == 2u8);
                    assert(bb@[p0] == 2);
                    let ss = o->CodeWordV_0;
                    lemma_subrange_slice(bb@, p0, encode_obj(o), 1, 17);
                    let sound = seq![2u8] + u128_be_bytes(cnt) + enc_fes(vold);
                    lemma_subrange_slice(bb@, p0, sound, 1, 17);
                    assert(sound.subrange(1, 17) =~= u128_be_bytes(cnt));
                    lemma_be_bytes_injective(cnt, ss.len() as u128);
                    assert(ss.len() == n);
                    lemma_subrange_slice(bb@, p0, encode_obj(o), 17,
                        17 + 16 * ss.len() as int);
                    let ef = enc_fes(ss);
                    lemma_enc_fes_props(ss);
                    lemma_subrange_slice(bb@, p0 + 17, ef, 16 * (i as int),
                        16 * (i as int) + 16);
                }
            }
            let fr = read_fe(bb, pos);
            match fr {
                Some(f) => {
                    v.push(f);
                    proof {
                        assert(v@.drop_last() =~= vold);
                        assert(v@.last() == f);
                        assert(enc_fes(v@) == enc_fes(vold) + u128_be_bytes(f.value));
                        assert(bb@.subrange(p0, *pos as int)
                            =~= bb@.subrange(p0, pm) + bb@.subrange(pm, *pos as int));
                        assert(seq![2u8] + u128_be_bytes(cnt) + enc_fes(vold)
                            + u128_be_bytes(f.value)
                            =~= seq![2u8] + u128_be_bytes(cnt) + enc_fes(v@));
                    }
                },
                None => {
                    proof {
                        assert forall|o: ObjectV| !obj_witness(bb@, p0, o) by {
                            if obj_witness(bb@, p0, o) {
                                let ss = o->CodeWordV_0;
                                assert(fr is Some);
                            }
                        }
                    }
                    return None;
                },
            }
            i = i + 1;
        }
        proof {
            assert(v@.len() as u128 == cnt);
            assert(encode_obj(obj_view(Object::CodeWord(v)))
                == seq![2u8] + u128_be_bytes(cnt) + enc_fes(v@));
            lemma_enc_fes_props(v@);
            // a witness is recovered element for element
            assert forall|o: ObjectV| obj_witness(bb@, p0, o)
                implies (o == obj_view(Object::CodeWord(v))
                    && *pos == p0 + encode_obj(o).len()) by {
                lemma_encode_obj_parts(o);
                assert(bb@.subrange(p0, p0 + encode_obj(o).len() as int)[0] == bb@[p0]);
                assert(bb@.subrange(p0, *pos as int)[0] == bb@[p0]);
                assert((seq![2u8] + u128_be_bytes(cnt) + enc_fes(v@))[0] == 2u8);
                assert(bb@[p0] == 2);
                let ss = o->CodeWordV_0;
                lemma_subrange_slice(bb@, p0, encode_obj(o), 1, 17);
                let sound = seq![2u8] + u128_be_bytes(cnt) + enc_fes(v@);
                assert(u128_be_bytes(cnt).len() == 16);
                assert(bb@.subrange(p0, *pos as int).len() == *pos - p0);
                assert(sound.len() == 17 + 16 * v@.len());
                lemma_subrange_slice(bb@, p0, sound, 1, 17);
                assert(sound.subrange(1, 17) =~= u128_be_bytes(cnt));
                lemma_be_bytes_injective(cnt, ss.len() as u128);
                assert(ss.len() == n);
                lemma_enc_fes_props(ss);
                assert(*pos == p0 + 17 + 16 * n);
                assert(*pos == p0 + encode_obj(o).len());
                lemma_subrange_slice(bb@, p0, encode_obj(o), 17, 17 + 16 * ss.len() as int);
                assert(bb@.subrange(p0 + 17, *pos as int) == enc_fes(ss));
                lemma_subrange_slice(bb@, p0, sound,
                    17, 17 + 16 * v@.len() as int);
                assert(sound.subrange(17, 17 + 16 * v@.len() as int) =~= enc_fes(v@));
                assert(bb@.subrange(p0 + 17, *pos as int) == enc_fes(v@));
                assert(enc_fes(v@) == enc_fes(ss));
                assert forall|j: int| 0 <= j < n implies v@[j] == ss[j] by {
                    assert(enc_fes(v@).subrange(16 * j, 16 * j + 16)
                        == u128_be_bytes(v@[j].value));
                    assert(enc_fes(ss).subrange(16 * j, 16 * j + 16)
                        == u128_be_bytes(ss[j].value));
                    lemma_be_bytes_injective(v@[j].value, ss[j].value);
                }
                assert(v@ =~= ss);
            }
        }
        Some(Object::CodeWord(v))
    } else if tag == 3 {
        let ghost pa = *pos as int;
        let ar = read_fe(bb, pos);
        proof {
            assert forall|o: ObjectV| obj_witness(bb@, p0, o)
                implies (ar is Some
                    && ar->0 == (o->ColinearityTestV_0).0) by {
                lemma_encode_obj_parts(o);
                let t3 = o->ColinearityTestV_0;
                lemma_subrange_slice(bb@, p0, encode_obj(o), 1, 17);
                assert(ar is Some && ar->0.value == t3.0.value);
                assert(ar->0 == t3.0);
            }
        }
        let a = match ar {
            Some(f) => f,
            None => {
                return None;
            },
        };
        let ghost pb = *pos as int;
        let br = read_fe(bb, pos);
        proof {
            assert forall|o: ObjectV| obj_witness(bb@, p0, o)
                implies (br is Some
                    && br->0 == (o->ColinearityTestV_0).1) by {
                lemma_encode_obj_parts(o);
                let t3 = o->ColinearityTestV_0;
                lemma_subrange_slice(bb@, p0, encode_obj(o), 17, 33);
                assert(br is Some && br->0.value == t3.1.value);
                assert(br->0 == t3.1);
            }
        }
        let b = match br {
            Some(f) => f,
            None => {
                return None;
            },
        };
        let ghost pc = *pos as int;
        let cr = read_fe(bb, pos);
        proof {
            assert forall|o: ObjectV| obj_witness(bb@, p0, o)
                implies (cr is Some
                    && cr->0 == (o->ColinearityTestV_0).2
                    && *pos == p0 + encode_obj(o).len()) by {
                lemma_encode_obj_parts(o);
                let t3 = o->ColinearityTestV_0;
                lemma_subrange_slice(bb@, p0, encode_obj(o), 33, 49);
                assert(cr is Some && cr->0.value == t3.2.value);
                assert(cr->0 == t3.2);
            }
        }
        let c = match cr {
            Some(f) => f,
            None => {
                return None;
            },
        };
        proof {
            assert(bb@.subrange(p0, *pos as int)
                =~= seq![3u8] + u128_be_bytes(a.value) + u128_be_bytes(b.value)
                    + u128_be_bytes(c.value));
            assert forall|o: ObjectV| obj_witness(bb@, p0, o)
                implies obj_view(Object::ColinearityTest((a, b, c))) == o
                    && *pos == p0 + encode_obj(o).len() by {
                lemma_encode_obj_parts(o);
                let t3 = o->ColinearityTestV_0;
                assert(a == t3.0 && b == t3.1 && c == t3.2);
                assert(t3 == (a, b, c));
                assert(o is ColinearityTestV);
            }
        }
        Some(Object::ColinearityTest((a, b, c)))
    } else if tag == 4 {
        let nr = read_u128(bb, pos);
        proof {
            assert forall|o: ObjectV| obj_witness(bb@, p0, o)
                implies (nr is Some
                    && nr->0 == (o->MerklePathV_0).len() as u128
                    && nr->0 <= usize::MAX as u128) by {
                lemma_encode_obj_parts(o);
                let pp = o->MerklePathV_0;
                lemma_subrange_slice(bb@, p0, encode_obj(o), 1, 17);
                assert(bb@.subrange(p0 + 1, p0 + 17) == u128_be_bytes(pp.len() as u128));
                assert(nr is Some);
                lemma_be_bytes_injective(nr->0, pp.len() as u128);
            }
        }
        let n = match nr {
            Some(n) => n,
            None => {
                return None;
            },
        };
        if n > (usize::MAX as u128) {
            return None;
        }
        proof {
            assert(bb@.subrange(p0, *pos as int)
                =~= seq![4u8] + u128_be_bytes(n));
        }
        let ghost cnt = n;
        let n = n as usize;
        let mut v: Vec<[u8; 32]> = Vec::new();
        let mut i: usize = 0;
        while i < n
            invariant
                *pos <= bb@.len(),
                i <= n,
                v@.len() == i,
                cnt == n as u128,
                bb@.subrange(p0, *pos as int)
                    == seq![4u8] + u128_be_bytes(cnt) + enc_digests(digests_view(v@)),
                0 <= p0 <= *pos,
                p0 == *old(pos),
                forall|j: int| 0 <= j < v@.len()
                    ==> (#[trigger] digests_view(v@)[j]).len() == 32,
            decreases n - i,
        {
            let ghost pm = *pos as int;
            let ghost vold = v@;
            proof {
                lemma_enc_digests_props(digests_view(vold));
                assert(u128_be_bytes(cnt).len() == 16);
                assert(bb@.subrange(p0, pm).len() == pm - p0);
                assert(digests_view(vold).len() == vold.len());
                assert((seq![4u8] + u128_be_bytes(cnt) + enc_digests(digests_view(vold))).len()
                    == 17 + 32 * vold.len());
                assert(pm == p0 + 17 + 32 * i);
                assert forall|o: ObjectV| obj_witness(bb@, p0, o)
                    implies (o matches ObjectV::MerklePathV(pp) && pp.len() == n
                        && pm + 32 <= bb@.len()
                        && bb@.subrange(pm, pm + 32) == pp[i as int]) by {
                    lemma_encode_obj_parts(o);
                    assert(bb@.subrange(p0, p0 + encode_obj(o).len() as int)[0] == bb@[p0]);
                    assert(bb@.subrange(p0, *pos as int)[0] == bb@[p0]);
                    assert((seq![4u8] + u128_be_bytes(cnt) + enc_digests(digests_view(vold)))[0]
                        == 4u8);
                    assert(bb@[p0] == 4);
                    let pp = o->MerklePathV_0;
                    lemma_subrange_slice(bb@, p0, encode_obj(o), 1, 17);
                    let sound = seq![4u8] + u128_be_bytes(cnt)
                        + enc_digests(digests_view(vold));
                    lemma_subrange_slice(bb@, p0, sound, 1, 17);
                    assert(sound.subrange(1, 17) =~= u128_be_bytes(cnt));
                    lemma_be_bytes_injective(cnt, pp.len() as u128);
                    assert(pp.len() == n);
                    lemma_subrange_slice(bb@, p0, encode_obj(o), 17,
                        17 + 32 * pp.len() as int);
                    lemma_enc_digests_props(pp);
                    lemma_subrange_slice(bb@, p0 + 17, enc_digests(pp),
                        32 * (i as int), 32 * (i as int) + 32);
                }
            }
            let dr = read_digest(bb, pos);
            match dr {
                Some(d) => {
                    v.push(d);
                    proof {
                        let dv = digests_view(v@);
                        assert(dv.drop_last() =~= digests_view(vold));
                        assert(dv.last() == d@);
                        assert(enc_digests(dv) == enc_digests(digests_view(vold)) + d@);
                        assert(bb@.subrange(p0, *pos as int)
                            =~= bb@.subrange(p0, pm) + bb@.subrange(pm, *pos as int));
                        assert(seq![4u8] + u128_be_bytes(cnt) + enc_digests(digests_view(vold))
                            + d@
                            =~= seq![4u8] + u128_be_bytes(cnt) + enc_digests(dv));
                    }
                },
                None => {
                    proof {
                        assert forall|o: ObjectV| !obj_witness(bb@, p0, o) by {
                            if obj_witness(bb@, p0, o) {
                                assert(dr is Some);
                            }
                        }
                    }
                    return None;
                },
            }
            i = i + 1;
        }
        proof {
            assert(digests_view(v@).len() as u128 == cnt);
            assert(encode_obj(obj_view(Object::MerklePath(v)))
                == seq![4u8] + u128_be_bytes(cnt) + enc_digests(digests_view(v@)));
            lemma_enc_digests_props(digests_view(v@));
            assert forall|o: ObjectV| obj_witness(bb@, p0, o)
                implies (o == obj_view(Object::MerklePath(v))
                    && *pos == p0 + encode_obj(o).len()) by {
                lemma_encode_obj_parts(o);
                assert(bb@.subrange(p0, p0 + encode_obj(o).len() as int)[0] == bb@[p0]);
                assert(bb@.subrange(p0, *pos as int)[0] == bb@[p0]);
                assert((seq![4u8] + u128_be_bytes(cnt)
                    + enc_digests(digests_view(v@)))[0] == 4u8);
                assert(bb@[p0] == 4);
                let pp = o->MerklePathV_0;
                lemma_subrange_slice(bb@, p0, encode_obj(o), 1, 17);
                let sound = seq![4u8] + u128_be_bytes(cnt) + enc_digests(digests_view(v@));
                assert(u128_be_bytes(cnt).len() == 16);
                assert(bb@.subrange(p0, *pos as int).len() == *pos - p0);
                assert(digests_view(v@).len() == v@.len());
                assert(sound.len() == 17 + 32 * v@.len());
                lemma_subrange_slice(bb@, p0, sound, 1, 17);
                assert(sound.subrange(1, 17) =~= u128_be_bytes(cnt));
                lemma_be_bytes_injective(cnt, pp.len() as u128);
                assert(pp.len() == n);
                lemma_enc_digests_props(pp);
                assert(*pos == p0 + 17 + 32 * n);
                assert(*pos == p0 + encode_obj(o).len());
                lemma_subrange_slice(bb@, p0, encode_obj(o), 17, 17 + 32 * pp.len() as int);
                assert(bb@.subrange(p0 + 17, *pos as int) == enc_digests(pp));
                lemma_subrange_slice(bb@, p0, sound,
                    17, 17 + 32 * v@.len() as int);
                assert(sound.subrange(17, 17 + 32 * v@.len() as int)
                    =~= enc_digests(digests_view(v@)));
                assert(bb@.subrange(p0 + 17, *pos as int) == enc_digests(digests_view(v@)));
                assert forall|j: int| 0 <= j < n
                    implies digests_view(v@)[j] == pp[j] by {
                    assert(enc_digests(digests_view(v@)).subrange(32 * j, 32 * j + 32)
                        == digests_view(v@)[j]);
                    assert(enc_digests(pp).subrange(32 * j, 32 * j + 32) == pp[j]);
                }
                assert(digests_view(v@) =~= pp);
            }
        }
        Some(Object::MerklePath(v))
    } else {
        proof {
            assert forall|o: ObjectV| !obj_witness(bb@, p0, o) by {
                if obj_witness(bb@, p0, o) {
                    lemma_encode_obj_parts(o);
                    assert(obj_tag(o) == tag);
                }
            }
        }
        None
    }
}

/// Transcript determinism: the serialization, and hence every derived
/// challenge, is a function of the logged message sequence alone. Two
/// transcripts holding the same messages serialize to the same bytes.
pub proof fn lemma_transcript_determinism(a: ProofStream, b: ProofStream)
    requires
        a.log() == b.log(),
    ensures
        encode_stream(a.log()) == encode_stream(b.log()),
        stream_challenge(a.log()) == stream_challenge(b.log()),
{
}

/// Fiat-Shamir agreement: when a verifier's cursor has consumed exactly the
/// messages a prover had pushed, the verifier's challenge (over its read
/// prefix) equals the prover's challenge (over its whole log).
pub proof fn lemma_fiat_shamir_agreement(prover: ProofStream, verifier: ProofStream)
    requires
        prover.log() == verifier.log().take(verifier.read_index as int),
    ensures
        stream_challenge(prover.log())
            == stream_challenge(verifier.log().take(verifier.read_index as int)),
{
}

} // verus!

verus! {

/// A message the decoder can parse back from its encoding: reduced
/// residues, 32-byte digests, container lengths within the machine.
pub open spec fn obj_wire_wf(o: ObjectV) -> bool {
    match o {
        ObjectV::PointV(f) => f.wf(),
        ObjectV::MerkleRootV(d) => d.len() == 32,
        ObjectV::CodeWordV(s) => s.len() <= usize::MAX
            && forall|j: int| 0 <= j < s.len() ==> (#[trigger] s[j]).wf(),
        ObjectV::ColinearityTestV(t) => t.0.wf() && t.1.wf() && t.2.wf(),
        ObjectV::MerklePathV(p) => p.len() <= usize::MAX
            && forall|j: int| 0 <= j < p.len() ==> (#[trigger] p[j]).len() == 32,
    }
}

/// A message sequence the decoder can parse back from its encoding.
pub open spec fn wire_wf(l: Seq<ObjectV>) -> bool {
    l.len() <= usize::MAX
        && forall|i: int| 0 <= i < l.len() ==> obj_wire_wf(#[trigger] l[i])
}

/// Distinct 128-bit values have distinct big-endian byte strings.
#[verifier::rlimit(100)]
proof fn lemma_be_bytes_injective(v1: u128, v2: u128)
    requires
        u128_be_bytes(v1) == u128_be_bytes(v2),
    ensures
        v1 == v2,
{
    assert(u128_be_bytes(v1)[0] == u128_be_bytes(v2)[0]);
    assert(u128_be_bytes(v1)[0] == crate::merkle::be_byte(v1, 0));
    assert(u128_be_bytes(v2)[0] == crate::merkle::be_byte(v2, 0));
    assert(((15 - 0) * 8) as u128 == 120);
    assert(((v1 >> 120) & 0xff) as u8 == ((v2 >> 120) & 0xff) as u8);
    assert(u128_be_bytes(v1)[1] == u128_be_bytes(v2)[1]);
    assert(u128_be_bytes(v1)[1] == crate::merkle::be_byte(v1, 1));
    assert(u128_be_bytes(v2)[1] == crate::merkle::be_byte(v2, 1));
    assert(((15 - 1) * 8) as u128 == 112);
    assert(((v1 >> 112) & 0xff) as u8 == ((v2 >> 112) & 0xff) as u8);
    assert(u128_be_bytes(v1)[2] == u128_be_bytes(v2)[2]);
    assert(u128_be_bytes(v1)[2] == crate::merkle::be_byte(v1, 2));
    assert(u128_be_bytes(v2)[2] == crate::merkle::be_byte(v2, 2));
    assert(((15 - 2) * 8) as u128 == 104);
    assert(((v1 >> 104) & 0xff) as u8 == ((v2 >> 104) & 0xff) as u8);
    assert(u128_be_bytes(v1)[3] == u128_be_bytes(v2)[3]);
    assert(u128_be_bytes(v1)[3] == crate::merkle::be_byte(v1, 3));
    assert(u128_be_bytes(v2)[3] == crate::merkle::be_byte(v2, 3));
    assert(((15 - 3) * 8) as u128 == 96);
    assert(((v1 >> 96) & 0xff) as u8 == ((v2 >> 96) & 0xff) as u8);
    assert(u128_be_bytes(v1)[4] == u128_be_bytes(v2)[4]);
    assert(u128_be_bytes(v1)[4] == crate::merkle::be_byte(v1, 4));
    assert(u128_be_bytes(v2)[4] == crate::merkle::be_byte(v2, 4));
    assert(((15 - 4) * 8) as u128 == 88);
    assert(((v1 >> 88) & 0xff) as u8 == ((v2 >> 88) & 0xff) as u8);
    assert(u128_be_bytes(v1)[5] == u128_be_bytes(v2)[5]);
    assert(u128_be_bytes(v1)[5] == crate::merkle::be_byte(v1, 5));
    assert(u128_be_bytes(v2)[5] == crate::merkle::be_byte(v2, 5));
    assert(((15 - 5) * 8) as u128 == 80);
    assert(((v1 >> 80) & 0xff) as u8 == ((v2 >> 80) & 0xff) as u8);
    assert(u128_be_bytes(v1)[6] == u128_be_bytes(v2)[6]);
    assert(u128_be_bytes(v1)[6] == crate::merkle::be_byte(v1, 6));
    assert(u128_be_bytes(v2)[6] == crate::merkle::be_byte(v2, 6));
    assert(((15 - 6) * 8) as u128 == 72);
    assert(((v1 >> 72) & 0xff) as u8 == ((v2 >> 72) & 0xff) as u8);
    assert(u128_be_bytes(v1)[7] == u128_be_bytes(v2)[7]);
    assert(u128_be_bytes(v1)[7] == crate::merkle::be_byte(v1, 7));
    assert(u128_be_bytes(v2)[7] == crate::merkle::be_byte(v2, 7));
    assert(((15 - 7) * 8) as u128 == 64);
    assert(((v1 >> 64) & 0xff) as u8 == ((v2 >> 64) & 0xff) as u8);
    assert(u128_be_bytes(v1)[8] == u128_be_bytes(v2)[8]);
    assert(u128_be_bytes(v1)[8] == crate::merkle::be_byte(v1, 8));
    assert(u128_be_bytes(v2)[8] == crate::merkle::be_byte(v2, 8));
    assert(((15 - 8) * 8) as u128 == 56);
    assert(((v1 >> 56) & 0xff) as u8 == ((v2 >> 56) & 0xff) as u8);
    assert(u128_be_bytes(v1)[9] == u128_be_bytes(v2)[9]);
    assert(u128_be_bytes(v1)[9] == crate::merkle::be_byte(v1, 9));
    assert(u128_be_bytes(v2)[9] == crate::merkle::be_byte(v2, 9));
    assert(((15 - 9) * 8) as u128 == 48);
    assert(((v1 >> 48) & 0xff) as u8 == ((v2 >> 48) & 0xff) as u8);
    assert(u128_be_bytes(v1)[10] == u128_be_bytes(v2)[10]);
    assert(u128_be_bytes(v1)[10] == crate::merkle::be_byte(v1, 10));
    assert(u128_be_bytes(v2)[10] == crate::merkle::be_byte(v2, 10));
    assert(((15 - 10) * 8) as u128 == 40);
    assert(((v1 >> 40) & 0xff) as u8 == ((v2 >> 40) & 0xff) as u8);
    assert(u128_be_bytes(v1)[11] == u128_be_bytes(v2)[11]);
    assert(u128_be_bytes(v1)[11] == crate::merkle::be_byte(v1, 11));
    assert(u128_be_bytes(v2)[11] == crate::merkle::be_byte(v2, 11));
    assert(((15 - 11) * 8) as u128 == 32);
    assert(((v1 >> 32) & 0xff) as u8 == ((v2 >> 32) & 0xff) as u8);
    assert(u128_be_bytes(v1)[12] == u128_be_bytes(v2)[12]);
    assert(u128_be_bytes(v1)[12] == crate::merkle::be_byte(v1, 12));
    assert(u128_be_bytes(v2)[12] == crate::merkle::be_byte(v2, 12));
    assert(((15 - 12) * 8) as u128 == 24);
    assert(((v1 >> 24) & 0xff) as u8 == ((v2 >> 24) & 0xff) as u8);
    assert(u128_be_bytes(v1)[13] == u128_be_bytes(v2)[13]);
    assert(u128_be_bytes(v1)[13] == crate::merkle::be_byte(v1, 13));
    assert(u128_be_bytes(v2)[13] == crate::merkle::be_byte(v2, 13));
    assert(((15 - 13) * 8) as u128 == 16);
    assert(((v1 >> 16) & 0xff) as u8 == ((v2 >> 16) & 0xff) as u8);
    assert(u128_be_bytes(v1)[14] == u128_be_bytes(v2)[14]);
    assert(u128_be_bytes(v1)[14] == crate::merkle::be_byte(v1, 14));
    assert(u128_be_bytes(v2)[14] == crate::merkle::be_byte(v2, 14));
    assert(((15 - 14) * 8) as u128 == 8);
    assert(((v1 >> 8) & 0xff) as u8 == ((v2 >> 8) & 0xff) as u8);
    assert(u128_be_bytes(v1)[15] == u128_be_bytes(v2)[15]);
    assert(u128_be_bytes(v1)[15] == crate::merkle::be_byte(v1, 15));
    assert(u128_be_bytes(v2)[15] == crate::merkle::be_byte(v2, 15));
    assert(((15 - 15) * 8) as u128 == 0);
    assert(((v1 >> 0) & 0xff) as u8 == ((v2 >> 0) & 0xff) as u8);
    assert(v1 == v2) by (bit_vector)
        requires
            ((v1 >> 120) & 0xff) as u8 == ((v2 >> 120) & 0xff) as u8,
            ((v1 >> 112) & 0xff) as u8 == ((v2 >> 112) & 0xff) as u8,
            ((v1 >> 104) & 0xff) as u8 == ((v2 >> 104) & 0xff) as u8,
            ((v1 >> 96) & 0xff) as u8 == ((v2 >> 96) & 0xff) as u8,
            ((v1 >> 88) & 0xff) as u8 == ((v2 >> 88) & 0xff) as u8,
            ((v1 >> 80) & 0xff) as u8 == ((v2 >> 80) & 0xff) as u8,
            ((v1 >> 72) & 0xff) as u8 == ((v2 >> 72) & 0xff) as u8,
            ((v1 >> 64) & 0xff) as u8 == ((v2 >> 64) & 0xff) as u8,
            ((v1 >> 56) & 0xff) as u8 == ((v2 >> 56) & 0xff) as u8,
            ((v1 >> 48) & 0xff) as u8 == ((v2 >> 48) & 0xff) as u8,
            ((v1 >> 40) & 0xff) as u8 == ((v2 >> 40) & 0xff) as u8,
            ((v1 >> 32) & 0xff) as u8 == ((v2 >> 32) & 0xff) as u8,
            ((v1 >> 24) & 0xff) as u8 == ((v2 >> 24) & 0xff) as u8,
            ((v1 >> 16) & 0xff) as u8 == ((v2 >> 16) & 0xff) as u8,
            ((v1 >> 8) & 0xff) as u8 == ((v2 >> 8) & 0xff) as u8,
            ((v1 >> 0) & 0xff) as u8 == ((v2 >> 0) & 0xff) as u8,
    ;
}

/// A consumed window slices like the byte string it equals.
proof fn lemma_subrange_slice(bb: Seq<u8>, a: int, e: Seq<u8>, x: int, y: int)
    requires
        0 <= a,
        a + e.len() <= bb.len(),
        bb.subrange(a, a + e.len()) == e,
        0 <= x <= y <= e.len(),
    ensures
        bb.subrange(a + x, a + y) == e.subrange(x, y),
{
    assert(bb.subrange(a + x, a + y) =~= e.subrange(x, y)) by {
        assert(forall|t: int| 0 <= t < y - x
            ==> bb.subrange(a + x, a + y)[t] == bb[a + x + t]
                && e.subrange(x, y)[t] == e[x + t]
                && #[trigger] bb.subrange(a, a + e.len())[x + t] == bb[a + x + t]);
    }
}

/// Concatenated field elements: sixteen bytes per entry, each entry's
/// window its own encoding.
proof fn lemma_enc_fes_props(s: Seq<FieldElement>)
    ensures
        enc_fes(s).len() == 16 * s.len(),
        forall|i: int| 0 <= i < s.len()
            ==> enc_fes(s).subrange(16 * i, 16 * i + 16)
                == u128_be_bytes((#[trigger] s[i]).value),
    decreases s.len(),
{
    if s.len() == 0 {
    } else {
        lemma_enc_fes_props(s.drop_last());
        let e = enc_fes(s);
        let ed = enc_fes(s.drop_last());
        let b = u128_be_bytes(s.last().value);
        assert(e == ed + b);
        assert forall|i: int| 0 <= i < s.len()
            implies e.subrange(16 * i, 16 * i + 16)
                == u128_be_bytes((#[trigger] s[i]).value) by {
            if i < s.len() - 1 {
                assert(s.drop_last()[i] == s[i]);
                assert(e.subrange(16 * i, 16 * i + 16)
                    =~= ed.subrange(16 * i, 16 * i + 16));
            } else {
                assert(s[i] == s.last());
                assert(e.subrange(16 * i, 16 * i + 16) =~= b);
            }
        }
    }
}

/// Concatenated digests: thirty-two bytes per entry.
proof fn lemma_enc_digests_props(p: Seq<Seq<u8>>)
    requires
        forall|j: int| 0 <= j < p.len() ==> (#[trigger] p[j]).len() == 32,
    ensures
        enc_digests(p).len() == 32 * p.len(),
        forall|i: int| 0 <= i < p.len()
            ==> enc_digests(p).subrange(32 * i, 32 * i + 32) == #[trigger] p[i],
    decreases p.len(),
{
    if p.len() == 0 {
    } else {
        assert(forall|j: int| 0 <= j < p.len() - 1
            ==> #[trigger] p.drop_last()[j] == p[j]);
        lemma_enc_digests_props(p.drop_last());
        let e = enc_digests(p);
        let ed = enc_digests(p.drop_last());
        let b = p.last();
        assert(e == ed + b);
        assert forall|i: int| 0 <= i < p.len()
            implies e.subrange(32 * i, 32 * i + 32) == #[trigger] p[i] by {
            if i < p.len() - 1 {
                assert(p.drop_last()[i] == p[i]);
                assert(e.subrange(32 * i, 32 * i + 32)
                    =~= ed.subrange(32 * i, 32 * i + 32));
            } else {
                assert(p[i] == p.last());
                assert(e.subrange(32 * i, 32 * i + 32) =~= b);
            }
        }
    }
}

/// The tag byte of a message's encoding.
pub open spec fn obj_tag(o: ObjectV) -> u8 {
    match o {
        ObjectV::PointV(_) => 0,
        ObjectV::MerkleRootV(_) => 1,
        ObjectV::CodeWordV(_) => 2,
        ObjectV::ColinearityTestV(_) => 3,
        ObjectV::MerklePathV(_) => 4,
    }
}

/// Shape of one message's encoding: tag byte first, then the payload at
/// fixed offsets.
proof fn lemma_encode_obj_parts(o: ObjectV)
    ensures
        encode_obj(o).len() >= 1,
        encode_obj(o)[0] == obj_tag(o),
        o matches ObjectV::PointV(f) ==> encode_obj(o).len() == 17
            && encode_obj(o).subrange(1, 17) == u128_be_bytes(f.value),
        o matches ObjectV::MerkleRootV(d) ==> encode_obj(o).len() == 1 + d.len()
            && encode_obj(o).subrange(1, 1 + d.len() as int) == d,
        o matches ObjectV::CodeWordV(s) ==> encode_obj(o).len() == 17 + 16 * s.len()
            && encode_obj(o).subrange(1, 17) == u128_be_bytes(s.len() as u128)
            && encode_obj(o).subrange(17, 17 + 16 * s.len() as int) == enc_fes(s),
        o matches ObjectV::ColinearityTestV(t) ==> encode_obj(o).len() == 49
            && encode_obj(o).subrange(1, 17) == u128_be_bytes(t.0.value)
            && encode_obj(o).subrange(17, 33) == u128_be_bytes(t.1.value)
            && encode_obj(o).subrange(33, 49) == u128_be_bytes(t.2.value),
        o matches ObjectV::MerklePathV(p)
            ==> (forall|j: int| 0 <= j < p.len() ==> (#[trigger] p[j]).len() == 32)
            ==> encode_obj(o).len() == 17 + 32 * p.len()
                && encode_obj(o).subrange(1, 17) == u128_be_bytes(p.len() as u128)
                && encode_obj(o).subrange(17, 17 + 32 * p.len() as int) == enc_digests(p),
{
    match o {
        ObjectV::PointV(f) => {
            assert(encode_obj(o).subrange(1, 17) =~= u128_be_bytes(f.value));
        },
        ObjectV::MerkleRootV(d) => {
            assert(encode_obj(o).subrange(1, 1 + d.len() as int) =~= d);
        },
        ObjectV::CodeWordV(s) => {
            lemma_enc_fes_props(s);
            assert(encode_obj(o).subrange(1, 17) =~= u128_be_bytes(s.len() as u128));
            assert(encode_obj(o).subrange(17, 17 + 16 * s.len() as int) =~= enc_fes(s));
        },
        ObjectV::ColinearityTestV(t) => {
            assert(encode_obj(o).subrange(1, 17) =~= u128_be_bytes(t.0.value));
            assert(encode_obj(o).subrange(17, 33) =~= u128_be_bytes(t.1.value));
            assert(encode_obj(o).subrange(33, 49) =~= u128_be_bytes(t.2.value));
        },
        ObjectV::MerklePathV(p) => {
            if forall|j: int| 0 <= j < p.len() ==> (#[trigger] p[j]).len() == 32 {
                lemma_enc_digests_props(p);
                assert(encode_obj(o).subrange(1, 17) =~= u128_be_bytes(p.len() as u128));
                assert(encode_obj(o).subrange(17, 17 + 32 * p.len() as int) =~= enc_digests(p));
            }
        },
    }
}

} // verus!
