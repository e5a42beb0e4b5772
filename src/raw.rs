use vstd::prelude::*;

verus! {

/// Size in bytes of one record: a 4x4 model matrix (16 floats) followed by a
/// 3x3 normal matrix whose rows are padded to 4 floats (12 floats).
pub const INSTANCE_SIZE: usize = 112;

/// One instance's transform record, in the byte layout the GPU reads.
#[derive(Clone, Copy, Debug, PartialEq, Eq)]
pub struct InstanceRaw {
    pub bytes: [u8; INSTANCE_SIZE],
}

/// A write into a group's GPU buffer: `records` go to consecutive record
/// positions starting at `first`, that is at byte offset `first * INSTANCE_SIZE`.
#[derive(Debug)]
pub struct BufferWrite {
    pub first: u16,
    pub records: Vec<InstanceRaw>,
}

impl BufferWrite {
    /// The write fits a buffer of `capacity` records.
    pub open spec fn fits(self, capacity: nat) -> bool {
        self.first + self.records@.len() <= capacity
    }

    /// The GPU buffer, seen as a sequence of records, after this write.
    pub open spec fn apply(self, gpu: Seq<InstanceRaw>) -> Seq<InstanceRaw> {
        Seq::new(
            gpu.len(),
            |i: int|
                if self.first <= i < self.first + self.records@.len() {
                    self.records@[i - self.first]
                } else {
                    gpu[i]
                },
        )
    }

    /// Byte offset at which the write starts.
    pub fn byte_offset(&self) -> (r: u64)
        ensures
            r == self.first * INSTANCE_SIZE,
    {
        self.first as u64 * INSTANCE_SIZE as u64
    }

    /// The bytes of the write: the records' bytes one after another.
    pub fn bytes(&self) -> (r: Vec<u8>)
        requires
            self.records@.len() * INSTANCE_SIZE <= usize::MAX,
        ensures
            r@ == record_bytes(self.records@),
    {
        let mut r: Vec<u8> = Vec::new();
        let mut i: usize = 0;
        while i < self.records.len()
            invariant
                i <= self.records@.len(),
                r@ == record_bytes(self.records@.take(i as int)),
            decreases self.records@.len() - i,
        {
            let rec = self.records[i];
            let mut j: usize = 0;
            while j < INSTANCE_SIZE
                invariant
                    i < self.records@.len(),
                    rec == self.records@[i as int],
                    j <= INSTANCE_SIZE,
                    r@ == record_bytes(self.records@.take(i as int)) + rec.bytes@.take(j as int),
                decreases INSTANCE_SIZE - j,
            {
                r.push(rec.bytes[j]);
                assert(rec.bytes@.take(j as int + 1) =~= rec.bytes@.take(j as int).push(rec.bytes@[j as int]));
                j += 1;
            }
            proof {
                assert(rec.bytes@.take(INSTANCE_SIZE as int) =~= rec.bytes@);
                assert(self.records@.take(i as int + 1).drop_last() =~= self.records@.take(i as int));
            }
            i += 1;
        }
        assert(self.records@.take(self.records@.len() as int) =~= self.records@);
        r
    }
}

/// The GPU buffer after the writes `ws`, applied in order.
pub open spec fn apply_writes(gpu: Seq<InstanceRaw>, ws: Seq<BufferWrite>) -> Seq<InstanceRaw>
    decreases ws.len(),
{
    if ws.len() == 0 {
        gpu
    } else {
        ws.last().apply(apply_writes(gpu, ws.drop_last()))
    }
}

/// The bytes of a sequence of records, laid out one after another.
pub open spec fn record_bytes(s: Seq<InstanceRaw>) -> Seq<u8>
    decreases s.len(),
{
    if s.len() == 0 {
        Seq::empty()
    } else {
        record_bytes(s.drop_last()) + s.last().bytes@
    }
}

/// A byte buffer after `data` was copied into it at byte offset `offset`.
pub open spec fn write_bytes(buf: Seq<u8>, offset: int, data: Seq<u8>) -> Seq<u8> {
    Seq::new(buf.len(), |b: int| if offset <= b < offset + data.len() { data[b - offset] } else { buf[b] })
}

/// Record `i` of a sequence occupies bytes `i * INSTANCE_SIZE ..` of its bytes.
pub proof fn lemma_record_bytes_index(s: Seq<InstanceRaw>)
    ensures
        record_bytes(s).len() == s.len() * INSTANCE_SIZE,
        forall|i: int, k: int|
            0 <= i < s.len() && 0 <= k < INSTANCE_SIZE ==> #[trigger] record_bytes(s)[i * INSTANCE_SIZE + k]
                == #[trigger] s[i].bytes@[k],
    decreases s.len(),
{
    if s.len() > 0 {
        let init = s.drop_last();
        lemma_record_bytes_index(init);
        assert forall|i: int, k: int|
            0 <= i < s.len() && 0 <= k < INSTANCE_SIZE implies #[trigger] record_bytes(s)[i * INSTANCE_SIZE + k]
                == #[trigger] s[i].bytes@[k] by {
            if i < s.len() - 1 {
                assert(init[i] == s[i]);
            }
        }
    }
}

/// Copying the bytes of `w` into the bytes of a buffer at `w`'s byte offset
/// gives the bytes of the buffer after `w`: the byte-level write and the
/// record-level write agree.
pub proof fn lemma_byte_write_matches(gpu: Seq<InstanceRaw>, w: BufferWrite)
    requires
        w.fits(gpu.len()),
    ensures
        write_bytes(record_bytes(gpu), w.first * INSTANCE_SIZE, record_bytes(w.records@))
            == record_bytes(w.apply(gpu)),
{
    let r = INSTANCE_SIZE as int;
    let after = w.apply(gpu);
    lemma_record_bytes_index(gpu);
    lemma_record_bytes_index(w.records@);
    lemma_record_bytes_index(after);
    let lhs = write_bytes(record_bytes(gpu), w.first * INSTANCE_SIZE, record_bytes(w.records@));
    assert forall|b: int| 0 <= b < lhs.len() implies lhs[b] == record_bytes(after)[b] by {
        let i = b / r;
        let k = b % r;
        assert(b == i * r + k);
        assert(0 <= i < gpu.len());
        assert(record_bytes(after)[i * r + k] == after[i].bytes@[k]);
        if w.first <= i < w.first + w.records@.len() {
            let j = i - w.first;
            assert(b - w.first * r == j * r + k);
            assert(record_bytes(w.records@)[j * r + k] == w.records@[j].bytes@[k]);
        } else {
            assert(record_bytes(gpu)[i * r + k] == gpu[i].bytes@[k]);
        }
    }
    assert(lhs =~= record_bytes(after));
}

} // verus!
