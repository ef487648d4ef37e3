use vstd::prelude::*;

verus! {

/// Why a record could not be read.
#[derive(Debug, PartialEq, Eq, Structural)]
pub enum RecordsErr {
    RecordNotFound,
}

/// The bytes of a sequence of records laid end to end.
pub open spec fn flatten(s: Seq<Seq<u8>>) -> Seq<u8>
    decreases s.len(),
{
    if s.len() == 0 {
        Seq::empty()
    } else {
        flatten(s.drop_last()) + s.last()
    }
}

/// The records a file of records of `size` bytes holds: its bytes cut
/// into runs of `size`.
pub open spec fn chunks(image: Seq<u8>, size: nat) -> Seq<Seq<u8>> {
    Seq::new(
        image.len() / size,
        |k: int| image.subrange(k * size, (k + 1) * size),
    )
}

/// Records of one size laid end to end take that size for each.
pub proof fn lemma_flatten_len(s: Seq<Seq<u8>>, size: nat)
    requires
        forall|i: int| 0 <= i < s.len() ==> #[trigger] s[i].len() == size,
    ensures
        flatten(s).len() == s.len() * size,
    decreases s.len(),
{
    if s.len() > 0 {
        lemma_flatten_len(s.drop_last(), size);
        assert(s.drop_last().len() * size + size == s.len() * size) by (nonlinear_arith)
            requires
                s.drop_last().len() + 1 == s.len(),
        ;
    }
}

/// Cutting the bytes of records laid end to end gives the records back:
/// reading a file gives back what was written to it.
pub proof fn lemma_chunks_flatten(s: Seq<Seq<u8>>, size: nat)
    requires
        size > 0,
        forall|i: int| 0 <= i < s.len() ==> #[trigger] s[i].len() == size,
    ensures
        chunks(flatten(s), size) == s,
    decreases s.len(),
{
    lemma_flatten_len(s, size);
    let f = flatten(s);
    let n = s.len() as int;
    assert(f.len() / size == n) by (nonlinear_arith)
        requires
            f.len() == n * size,
            size > 0,
    ;
    if n > 0 {
        let front = s.drop_last();
        lemma_chunks_flatten(front, size);
        lemma_flatten_len(front, size);
        assert(front.len() * size == (n - 1) * size);
        assert forall|k: int| 0 <= k < n implies #[trigger] chunks(f, size)[k] == s[k] by {
            assert(k * size + size == (k + 1) * size) by (nonlinear_arith);
            assert(0 <= k * size) by (nonlinear_arith)
                requires
                    0 <= k,
            ;
            if k < n - 1 {
                assert((k + 1) * size <= (n - 1) * size) by (nonlinear_arith)
                    requires
                        k + 1 <= n - 1,
                ;
                assert((front.len() as int) * size / (size as int) == n - 1) by (nonlinear_arith)
                    requires
                        front.len() == n - 1,
                        size > 0,
                ;
                assert(chunks(flatten(front), size)[k] == front[k]);
                assert(f.subrange(k * size, (k + 1) * size) =~= flatten(front).subrange(k * size, (k + 1) * size));
            } else {
                assert(f.subrange(k * size, (k + 1) * size) =~= s.last());
            }
        }
        assert(chunks(f, size) =~= s);
    } else {
        assert(chunks(f, size) =~= s);
    }
}

/// Laying end to end the records a file is cut into gives back its bytes.
pub proof fn lemma_flatten_chunks(x: Seq<u8>, size: nat)
    requires
        size > 0,
        x.len() % size == 0,
    ensures
        flatten(chunks(x, size)) == x,
    decreases x.len(),
{
    let q = x.len() / size;
    assert(x.len() == q * size) by (nonlinear_arith)
        requires
            x.len() % size == 0,
            q == x.len() / size,
            size > 0,
    ;
    if x.len() == 0 {
        assert(chunks(x, size) =~= Seq::<Seq<u8>>::empty());
        assert(flatten(chunks(x, size)) =~= x);
    } else {
        assert(q >= 1) by (nonlinear_arith)
            requires
                x.len() == q * size,
                x.len() > 0,
                size > 0,
        ;
        let m = (q - 1) * size;
        assert(m == x.len() - size) by (nonlinear_arith)
            requires
                m == (q - 1) * size,
                x.len() == q * size,
        ;
        let y = x.take(m as int);
        assert(y.len() / size == q - 1) by (nonlinear_arith)
            requires
                y.len() == (q - 1) * size,
                size > 0,
                q >= 1,
        ;
        assert(y.len() % size == 0) by (nonlinear_arith)
            requires
                y.len() == (q - 1) * size,
                size > 0,
                q >= 1,
        ;
        lemma_flatten_chunks(y, size);
        let c = chunks(x, size);
        assert forall|k: int| 0 <= k < q - 1 implies #[trigger] c.drop_last()[k] == chunks(y, size)[k] by {
            assert((k + 1) * size <= (q - 1) * size) by (nonlinear_arith)
                requires
                    k + 1 <= q - 1,
                    size > 0,
            ;
            assert(0 <= k * size) by (nonlinear_arith)
                requires
                    0 <= k,
            ;
            assert(k * size + size == (k + 1) * size) by (nonlinear_arith);
            assert(c[k] =~= y.subrange(k * size, (k + 1) * size));
        }
        assert(c.drop_last() =~= chunks(y, size));
        assert((q - 1) * size + size == q * size) by (nonlinear_arith);
        assert(c.last() =~= x.subrange(m as int, x.len() as int));
        assert(flatten(c) =~= x);
    }
}

/// The bytes of records written out in two goes are the bytes of all of
/// them: appending what each sync hands out builds the whole file.
pub proof fn lemma_flatten_split(s: Seq<Seq<u8>>, a: int, b: int)
    requires
        0 <= a <= b <= s.len(),
    ensures
        flatten(s.subrange(0, a)) + flatten(s.subrange(a, b)) == flatten(s.subrange(0, b)),
    decreases b - a,
{
    if a == b {
        assert(s.subrange(a, b) =~= Seq::<Seq<u8>>::empty());
        assert(flatten(s.subrange(0, a)) + Seq::<u8>::empty() =~= flatten(s.subrange(0, a)));
    } else {
        lemma_flatten_split(s, a, b - 1);
        assert(s.subrange(a, b).drop_last() =~= s.subrange(a, b - 1));
        assert(s.subrange(0, b).drop_last() =~= s.subrange(0, b - 1));
        assert(flatten(s.subrange(0, a)) + flatten(s.subrange(a, b - 1)) + s[b - 1]
            =~= flatten(s.subrange(0, a)) + (flatten(s.subrange(a, b - 1)) + s[b - 1]));
    }
}

/// A file of fixed-size records, held in memory. Records are created at the
/// end of the file, so the id of a record is its position; the records that
/// were created since the last [`RecordsManager::sync`] are the ones that
/// still have to be written out.
pub struct RecordsManager {
    record_size: usize,
    records: Vec<Vec<u8>>,
    flushed: usize,
}

impl View for RecordsManager {
    type V = Seq<Seq<u8>>;

    closed spec fn view(&self) -> Seq<Seq<u8>> {
        self.records@.map_values(|r: Vec<u8>| r@)
    }
}

impl RecordsManager {
    /// Every record has the size the file was made with, and the records
    /// already written out are a prefix of the file.
    pub closed spec fn wf(&self) -> bool {
        &&& forall|i: int| 0 <= i < self.records@.len() ==> #[trigger] self.records@[i]@.len() == self.record_size
        &&& self.flushed <= self.records@.len()
    }

    /// The size of each record.
    pub closed spec fn spec_record_size(&self) -> nat {
        self.record_size as nat
    }

    /// How many records have already been written out.
    pub closed spec fn spec_flushed(&self) -> nat {
        self.flushed as nat
    }

    /// Every record of a well-formed file has the file's record size.
    pub proof fn lemma_record_sizes(&self)
        requires
            self.wf(),
        ensures
            forall|i: int| 0 <= i < self@.len() ==> #[trigger] self@[i].len() == self.spec_record_size(),
            self.spec_flushed() <= self@.len(),
    {
        assert forall|i: int| 0 <= i < self@.len() implies #[trigger] self@[i].len() == self.spec_record_size() by {
            assert(self@[i] == self.records@[i]@);
        }
    }

    /// An empty file of records of `record_size` bytes.
    pub fn new(record_size: usize) -> (rm: Self)
        ensures
            rm.wf(),
            rm@ == Seq::<Seq<u8>>::empty(),
            rm.spec_record_size() == record_size,
            rm.spec_flushed() == 0,
    {
        RecordsManager { record_size, records: Vec::new(), flushed: 0 }
    }

    /// The file of records of `record_size` bytes whose bytes are `image`,
    /// all of them already written out; `None` where the length of `image`
    /// is not a multiple of `record_size`.
    pub fn from_image(record_size: usize, image: &[u8]) -> (rm: Option<Self>)
        requires
            record_size > 0,
        ensures
            image@.len() % (record_size as nat) != 0 ==> rm is None,
            image@.len() % (record_size as nat) == 0 ==> {
                &&& rm is Some
                &&& rm.unwrap().wf()
                &&& rm.unwrap()@ == chunks(image@, record_size as nat)
                &&& rm.unwrap().spec_record_size() == record_size
                &&& rm.unwrap().spec_flushed() == rm.unwrap()@.len()
            },
    {
        if image.len() % record_size != 0 {
            return None;
        }
        let len = image.len();
        let count = len / record_size;
        let ghost size = record_size as int;
        assert(count * size == image@.len()) by (nonlinear_arith)
            requires
                count == (image@.len() as int) / size,
                (image@.len() as int) % size == 0,
                size > 0,
        ;
        let mut records: Vec<Vec<u8>> = Vec::new();
        let mut k: usize = 0;
        while k < count
            invariant
                0 <= k <= count,
                size == record_size,
                size > 0,
                count * size == image@.len(),
                len == image@.len(),
                count == (image@.len() as int) / size,
                records@.len() == k,
                forall|j: int| 0 <= j < k ==> #[trigger] records@[j]@ == image@.subrange(j * size, (j + 1) * size),
            decreases count - k,
        {
            assert((k + 1) * size <= count * size && k * size + size == (k + 1) * size && 0 <= k * size) by (nonlinear_arith)
                requires
                    k + 1 <= count,
                    size > 0,
                    0 <= k,
            ;
            let start = k * record_size;
            let mut record: Vec<u8> = Vec::new();
            let mut i: usize = 0;
            while i < record_size
                invariant
                    0 <= i <= record_size,
                    start + record_size <= len,
                    len == image@.len(),
                    record@ == image@.subrange(start as int, start + i),
                decreases record_size - i,
            {
                record.push(image[start + i]);
                i = i + 1;
                assert(image@.subrange(start as int, start + i) =~= image@.subrange(start as int, start + i - 1).push(image@[start + i - 1]));
            }
            records.push(record);
            k = k + 1;
        }
        let rm = RecordsManager { record_size, records, flushed: count };
        assert(rm@ =~= chunks(image@, record_size as nat));
        assert forall|i: int| 0 <= i < rm.records@.len() implies #[trigger] rm.records@[i]@.len() == rm.record_size by {
            assert(i * size + size == (i + 1) * size && (i + 1) * size <= count * size && 0 <= i * size) by (nonlinear_arith)
                requires
                    0 <= i < count,
                    size > 0,
            ;
        }
        Some(rm)
    }

    /// Appends a record and returns its id.
    pub fn create(&mut self, data: &[u8]) -> (id: u64)
        requires
            old(self).wf(),
            data@.len() == old(self).spec_record_size(),
        ensures
            final(self).wf(),
            final(self)@ == old(self)@.push(data@),
            id == old(self)@.len(),
            final(self).spec_record_size() == old(self).spec_record_size(),
            final(self).spec_flushed() == old(self).spec_flushed(),
    {
        let id = self.records.len() as u64;
        let mut record: Vec<u8> = Vec::new();
        let mut i: usize = 0;
        while i < data.len()
            invariant
                0 <= i <= data@.len(),
                record@ == data@.take(i as int),
            decreases data@.len() - i,
        {
            record.push(data[i]);
            i = i + 1;
            assert(data@.take(i as int) =~= data@.take(i - 1).push(data@[i - 1]));
        }
        assert(data@.take(data@.len() as int) =~= data@);
        let ghost before = self.records@;
        self.records.push(record);
        assert(self@ =~= old(self)@.push(data@)) by {
            assert(self.records@ == before.push(record));
        }
        id
    }

    /// The number of records in the file.
    pub fn len(&self) -> (n: usize)
        ensures
            n == self@.len(),
    {
        self.records.len()
    }

    /// The bytes of the record `id`, or `RecordNotFound` where there is no
    /// such record.
    pub fn load(&self, id: u64) -> (res: Result<Vec<u8>, RecordsErr>)
        requires
            self.wf(),
        ensures
            id < self@.len() ==> res == Ok::<Vec<u8>, RecordsErr>(res.unwrap()) && res.unwrap()@ == self@[id as int],
            id >= self@.len() ==> res == Err::<Vec<u8>, RecordsErr>(RecordsErr::RecordNotFound),
    {
        if id >= self.records.len() as u64 {
            return Err(RecordsErr::RecordNotFound);
        }
        let src = &self.records[id as usize];
        let mut out: Vec<u8> = Vec::new();
        let mut i: usize = 0;
        while i < src.len()
            invariant
                0 <= i <= src@.len(),
                out@ == src@.take(i as int),
            decreases src@.len() - i,
        {
            out.push(src[i]);
            i = i + 1;
            assert(src@.take(i as int) =~= src@.take(i - 1).push(src@[i - 1]));
        }
        assert(src@.take(src@.len() as int) =~= src@);
        Ok(out)
    }

    /// The bytes of the records not yet written out, in the order of their
    /// ids: what is to be appended to the file.
    pub fn pending(&self) -> (pending: Vec<u8>)
        requires
            self.wf(),
        ensures
            pending@ == flatten(self@.subrange(self.spec_flushed() as int, self@.len() as int)),
    {
        let mut pending: Vec<u8> = Vec::new();
        let mut i: usize = self.flushed;
        let ghost start = self.flushed as int;
        while i < self.records.len()
            invariant
                self.wf(),
                                start <= i <= self.records@.len(),
                start == self.spec_flushed(),
                pending@ == flatten(self@.subrange(start, i as int)),
            decreases self.records@.len() - i,
        {
            let rec = &self.records[i];
            let ghost before = pending@;
            let mut j: usize = 0;
            while j < rec.len()
                invariant
                    0 <= j <= rec@.len(),
                    pending@ == before + rec@.take(j as int),
                decreases rec@.len() - j,
            {
                pending.push(rec[j]);
                j = j + 1;
                assert(rec@.take(j as int) =~= rec@.take(j - 1).push(rec@[j - 1]));
                assert(before + rec@.take(j as int) =~= (before + rec@.take(j - 1)).push(rec@[j - 1]));
            }
            assert(rec@.take(rec@.len() as int) =~= rec@);
            assert(self@.subrange(start, i + 1).drop_last() =~= self@.subrange(start, i as int));
            i = i + 1;
        }
        pending
    }

    /// Marks every record as written out.
    pub fn mark_synced(&mut self)
        requires
            old(self).wf(),
        ensures
            final(self).wf(),
            final(self)@ == old(self)@,
            final(self).spec_record_size() == old(self).spec_record_size(),
            final(self).spec_flushed() == old(self)@.len(),
    {
        self.flushed = self.records.len();
    }

    /// Marks every record as written out and returns the bytes of those that
    /// had not been, in the order of their ids: what is to be appended to the
    /// file.
    pub fn sync(&mut self) -> (pending: Vec<u8>)
        requires
            old(self).wf(),
        ensures
            final(self).wf(),
            final(self)@ == old(self)@,
            final(self).spec_record_size() == old(self).spec_record_size(),
            final(self).spec_flushed() == old(self)@.len(),
            pending@ == flatten(old(self)@.subrange(old(self).spec_flushed() as int, old(self)@.len() as int)),
    {
        let pending = self.pending();
        self.mark_synced();
        pending
    }
}

} // verus!
