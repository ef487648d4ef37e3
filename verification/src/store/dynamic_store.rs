use crate::store::records::{
    dr_from_bytes, dr_to_bytes, lemma_dr_bytes_roundtrip, spec_dr_from_bytes, DynamicStoreRecord,
    RecordView, DYN_RECORD_SIZE,
};
use crate::store::records_manager::{
    chunks, flatten, lemma_chunks_flatten, lemma_flatten_chunks, lemma_flatten_len, lemma_flatten_split, RecordsManager,
};
use vstd::prelude::*;
use vstd::relations::injective_on;
use vstd::set_lib::{lemma_int_range, lemma_len_subset, lemma_map_size, set_int_range};
use vstd::utf8::{
    decode_utf8, encode_utf8, encode_utf8_decode_utf8, encode_utf8_valid_utf8, valid_utf8,
};

verus! {

/// What following a chain of records gives: the bytes of every record of a
/// chain that ends, a chain that runs into a record that does not exist, or
/// (with too little fuel) a walk that has not finished yet.
pub enum Walk {
    Done(Seq<u8>),
    Broken,
    Unfinished,
}

/// Follows the chain of records that starts at `id` for at most `fuel` records.
pub open spec fn walk(recs: Seq<RecordView>, id: u64, fuel: nat) -> Walk
    decreases fuel,
{
    if fuel == 0 {
        Walk::Unfinished
    } else if id >= recs.len() {
        Walk::Broken
    } else if !recs[id as int].has_next {
        Walk::Done(recs[id as int].data)
    } else {
        match walk(recs, recs[id as int].next, (fuel - 1) as nat) {
            Walk::Done(d) => Walk::Done(recs[id as int].data + d),
            w => w,
        }
    }
}

/// The chain that starts at `id` comes to an end: it does not loop.
pub open spec fn chain_ends(recs: Seq<RecordView>, id: u64) -> bool {
    exists|fuel: nat| !(#[trigger] walk(recs, id, fuel) is Unfinished)
}

/// The outcome of following the chain that starts at `id` to its end.
pub open spec fn chain_of(recs: Seq<RecordView>, id: u64) -> Walk {
    walk(recs, id, choose|fuel: nat| !(#[trigger] walk(recs, id, fuel) is Unfinished))
}

/// Once a walk has finished, more fuel does not change it.
pub proof fn lemma_walk_fuel(recs: Seq<RecordView>, id: u64, f1: nat, f2: nat)
    requires
        !(walk(recs, id, f1) is Unfinished),
        f1 <= f2,
    ensures
        walk(recs, id, f2) == walk(recs, id, f1),
    decreases f1,
{
    if id < recs.len() && recs[id as int].has_next {
        lemma_walk_fuel(recs, recs[id as int].next, (f1 - 1) as nat, (f2 - 1) as nat);
    }
}

/// Any finished walk gives the outcome of the chain.
pub proof fn lemma_chain_of(recs: Seq<RecordView>, id: u64, fuel: nat)
    requires
        !(walk(recs, id, fuel) is Unfinished),
    ensures
        chain_ends(recs, id),
        chain_of(recs, id) == walk(recs, id, fuel),
{
    let f = choose|f: nat| !(#[trigger] walk(recs, id, f) is Unfinished);
    if f <= fuel {
        lemma_walk_fuel(recs, id, f, fuel);
    } else {
        lemma_walk_fuel(recs, id, fuel, f);
    }
}

/// The record that `k` steps along the chain that starts at `id` lead to.
pub open spec fn hop(recs: Seq<RecordView>, id: u64, k: nat) -> u64
    decreases k,
{
    if k == 0 {
        id
    } else {
        let p = hop(recs, id, (k - 1) as nat);
        if p < recs.len() {
            recs[p as int].next
        } else {
            p
        }
    }
}

proof fn lemma_hop_shift(recs: Seq<RecordView>, id: u64, k: nat)
    requires
        id < recs.len(),
    ensures
        hop(recs, id, k + 1) == hop(recs, recs[id as int].next, k),
    decreases k,
{
    assert(((k + 1) - 1) as nat == k);
    assert(hop(recs, id, k + 1) == {
        let p = hop(recs, id, k);
        if p < recs.len() {
            recs[p as int].next
        } else {
            p
        }
    });
    if k == 0 {
        assert(hop(recs, id, 0) == id);
        assert(hop(recs, recs[id as int].next, 0) == recs[id as int].next);
    }
    if k > 0 {
        lemma_hop_shift(recs, id, (k - 1) as nat);
        assert(hop(recs, recs[id as int].next, k) == {
            let p = hop(recs, recs[id as int].next, (k - 1) as nat);
            if p < recs.len() {
                recs[p as int].next
            } else {
                p
            }
        });
    }
}

/// A walk that has not finished went through records that each point on.
proof fn lemma_unfinished_hops(recs: Seq<RecordView>, id: u64, fuel: nat)
    requires
        walk(recs, id, fuel) is Unfinished,
    ensures
        forall|k: nat| k < fuel ==> #[trigger] hop(recs, id, k) < recs.len() && recs[hop(recs, id, k) as int].has_next,
    decreases fuel,
{
    if fuel > 0 {
        let next = recs[id as int].next;
        lemma_unfinished_hops(recs, next, (fuel - 1) as nat);
        assert forall|k: nat| k < fuel implies #[trigger] hop(recs, id, k) < recs.len() && recs[hop(recs, id, k) as int].has_next by {
            if k > 0 {
                lemma_hop_shift(recs, id, (k - 1) as nat);
                assert(hop(recs, next, (k - 1) as nat) < recs.len());
            }
        }
    }
}

/// A walk through a loop of records that each point on never finishes.
proof fn lemma_loop_never_ends(recs: Seq<RecordView>, id: u64, i: nat, j: nat, fuel: nat, k: nat)
    requires
        i < j,
        hop(recs, id, i) == hop(recs, id, j),
        forall|m: nat| i <= m < j ==> #[trigger] hop(recs, id, m) < recs.len() && recs[hop(recs, id, m) as int].has_next,
        i <= k < j,
    ensures
        walk(recs, hop(recs, id, k), fuel) is Unfinished,
    decreases fuel, j - k,
{
    if fuel > 0 {
        let p = hop(recs, id, k);
        assert(hop(recs, id, k + 1) == recs[p as int].next);
        if k + 1 < j {
            lemma_loop_never_ends(recs, id, i, j, (fuel - 1) as nat, k + 1);
        } else {
            lemma_loop_never_ends(recs, id, i, j, (fuel - 1) as nat, i);
        }
    }
}

/// A walk whose first `i` steps go through records that point on, and that
/// does not finish from where they lead, does not finish.
proof fn lemma_unfinished_after(recs: Seq<RecordView>, id: u64, i: nat, fuel: nat)
    requires
        forall|m: nat| m < i ==> #[trigger] hop(recs, id, m) < recs.len() && recs[hop(recs, id, m) as int].has_next,
        forall|f: nat| #[trigger] walk(recs, hop(recs, id, i), f) is Unfinished,
    ensures
        walk(recs, id, fuel) is Unfinished,
    decreases i,
{
    if i > 0 && fuel > 0 {
        assert(hop(recs, id, 0) == id);
        let next = recs[id as int].next;
        assert forall|m: nat| m < (i - 1) as nat implies #[trigger] hop(recs, next, m) < recs.len() && recs[hop(recs, next, m) as int].has_next by {
            lemma_hop_shift(recs, id, m);
            assert(hop(recs, id, m + 1) < recs.len());
        }
        lemma_hop_shift(recs, id, (i - 1) as nat);
        lemma_unfinished_after(recs, next, (i - 1) as nat, (fuel - 1) as nat);
    } else if i == 0 {
        assert(walk(recs, hop(recs, id, 0), fuel) is Unfinished);
    }
}

/// A chain that ends runs through each record at most once, so following it
/// for one more step than there are records finishes the walk.
pub proof fn lemma_walk_bounded(recs: Seq<RecordView>, id: u64)
    requires
        chain_ends(recs, id),
    ensures
        !(walk(recs, id, recs.len() + 1) is Unfinished),
        chain_of(recs, id) == walk(recs, id, recs.len() + 1),
{
    let n = recs.len() as int;
    if walk(recs, id, (n + 1) as nat) is Unfinished {
        lemma_unfinished_hops(recs, id, (n + 1) as nat);
        let f = |k: int| hop(recs, id, k as nat) as int;
        lemma_int_range(0, n + 1);
        lemma_int_range(0, n as int);
        if injective_on(f, set_int_range(0, n + 1)) {
            assert forall|k: int| #[trigger] set_int_range(0, n + 1).contains(k) implies set_int_range(0, n as int).contains(f(k)) by {
                assert(hop(recs, id, k as nat) < n);
            }
            lemma_map_size(set_int_range(0, n + 1), set_int_range(0, n + 1).map(f), f);
            assert(set_int_range(0, n + 1).map(f).subset_of(set_int_range(0, n as int)));
            lemma_len_subset(set_int_range(0, n + 1).map(f), set_int_range(0, n as int));
            assert(false);
        }
        let (a, b) = choose|a: int, b: int|
            set_int_range(0, n + 1).contains(a) && set_int_range(0, n + 1).contains(b) && #[trigger] f(a) == #[trigger] f(b)
                && a != b;
        let (i, j) = if a < b { (a as nat, b as nat) } else { (b as nat, a as nat) };
        assert(hop(recs, id, i) == hop(recs, id, j));
        assert forall|fuel: nat| #[trigger] walk(recs, hop(recs, id, i), fuel) is Unfinished by {
            lemma_loop_never_ends(recs, id, i, j, fuel, i);
        }
        assert forall|fuel: nat| #[trigger] walk(recs, id, fuel) is Unfinished by {
            lemma_unfinished_after(recs, id, i, fuel);
        }
        let g = choose|fuel: nat| !(#[trigger] walk(recs, id, fuel) is Unfinished);
        assert(walk(recs, id, g) is Unfinished);
        assert(false);
    }
    lemma_chain_of(recs, id, (n + 1) as nat);
}

/// A finished walk over some records walks the same way once more records
/// are appended.
pub proof fn lemma_walk_extend(recs: Seq<RecordView>, more: Seq<RecordView>, id: u64, fuel: nat)
    requires
        walk(recs, id, fuel) is Done,
    ensures
        walk(recs + more, id, fuel) == walk(recs, id, fuel),
    decreases fuel,
{
    assert((recs + more)[id as int] == recs[id as int]);
    if recs[id as int].has_next {
        lemma_walk_extend(recs, more, recs[id as int].next, (fuel - 1) as nat);
    }
}

/// `data` followed by zeros up to the next multiple of the record payload
/// size past its end: the bytes that the records of a saved value hold.
pub open spec fn padded(data: Seq<u8>) -> Seq<u8> {
    data + Seq::new(((data.len() / 120 + 1) * 120 - data.len()) as nat, |i: int| 0u8)
}

/// The payload of the `k`-th record of a saved value.
pub open spec fn chunk(data: Seq<u8>, k: int) -> Seq<u8> {
    padded(data).subrange(k * 120, k * 120 + 120)
}

/// The records that saving `data` appends to a store that holds `base`
/// records: the last chunk first, each later record pointing at the one
/// appended before it.
pub open spec fn saved_records(data: Seq<u8>, base: int) -> Seq<RecordView> {
    let n = data.len() / 120;
    Seq::new(
        (n + 1) as nat,
        |j: int|
            RecordView {
                in_use: true,
                has_next: j > 0,
                next: if j > 0 { (base + j - 1) as u64 } else { 0 },
                data: chunk(data, n - j),
            },
    )
}

/// The value that `load_string` gives for the bytes of a chain: the bytes
/// before the first zero byte, read as UTF-8.
pub open spec fn is_first_nul(d: Seq<u8>, e: int) -> bool {
    &&& 0 <= e <= d.len()
    &&& forall|j: int| 0 <= j < e ==> d[j] != 0
    &&& (e == d.len() || d[e] == 0)
}

/// Where the first zero byte of `d` is, or its length if it holds none.
pub open spec fn first_nul(d: Seq<u8>) -> int {
    choose|e: int| is_first_nul(d, e)
}

/// There is exactly one first zero byte (or none).
pub proof fn lemma_first_nul_unique(d: Seq<u8>, e: int)
    requires
        is_first_nul(d, e),
    ensures
        first_nul(d) == e,
{
    let c = first_nul(d);
    assert(is_first_nul(d, c));
    if c < e {
        assert(d[c] != 0);
    }
    if e < c {
        assert(d[e] != 0);
    }
}

proof fn lemma_saved_walk(recs: Seq<RecordView>, data: Seq<u8>, j: int)
    requires
        0 <= j <= data.len() / 120,
        recs.len() + data.len() / 120 <= u64::MAX,
    ensures
        walk(recs + saved_records(data, recs.len() as int), (recs.len() + j) as u64, (j + 1) as nat)
            == Walk::Done(padded(data).subrange((data.len() / 120 - j) * 120, ((data.len() / 120 + 1) * 120) as int)),
    decreases j,
{
    let base = recs.len() as int;
    let n = (data.len() / 120) as int;
    let all = recs + saved_records(data, base);
    let pad = padded(data);
    assert(n * 120 <= data.len() < n * 120 + 120) by (nonlinear_arith)
        requires
            n == data.len() / 120,
    ;
    assert(pad.len() == (n + 1) * 120);
    assert(all[base + j] == saved_records(data, base)[j]);
    if j == 0 {
        assert(chunk(data, n) =~= pad.subrange(n * 120, (n + 1) * 120));
    } else {
        lemma_saved_walk(recs, data, j - 1);
        assert(chunk(data, n - j) + pad.subrange((n - j + 1) * 120, (n + 1) * 120)
            =~= pad.subrange((n - j) * 120, (n + 1) * 120));
    }
}

/// What a read gives back of a write: after `data` is saved, the chain that
/// starts at the returned id ends, and it holds `data` followed by the zeros
/// that pad its last record.
pub proof fn lemma_save_then_load(recs: Seq<RecordView>, data: Seq<u8>)
    requires
        recs.len() + data.len() / 120 <= u64::MAX,
    ensures
        chain_ends(recs + saved_records(data, recs.len() as int), (recs.len() + data.len() / 120) as u64),
        chain_of(recs + saved_records(data, recs.len() as int), (recs.len() + data.len() / 120) as u64)
            == Walk::Done(padded(data)),
{
    let n = (data.len() / 120) as int;
    lemma_saved_walk(recs, data, n);
    assert(n * 120 <= data.len() < n * 120 + 120) by (nonlinear_arith)
        requires
            n == data.len() / 120,
    ;
    assert(padded(data).subrange(0, (n + 1) * 120) =~= padded(data));
    lemma_chain_of(recs + saved_records(data, recs.len() as int), (recs.len() + n) as u64, (n + 1) as nat);
}

/// The bytes `d` read back from a chain hold the value `data`: all of
/// `data`, zero bytes included, then zeros up to the end of the last
/// 120-byte record.
pub open spec fn holds_value(d: Seq<u8>, data: Seq<u8>) -> bool {
    &&& d.len() == (data.len() / 120 + 1) * 120
    &&& forall|i: int| 0 <= i < data.len() ==> #[trigger] d[i] == data[i]
    &&& forall|i: int| data.len() <= i < d.len() ==> #[trigger] d[i] == 0
}

/// Every value saved reads back whole: the chain that starts at the id
/// `save_data` returns ends, and its bytes are the data, every byte of it
/// (zero bytes included), followed by zeros.
pub proof fn lemma_saved_value_reads_back(recs: Seq<RecordView>, data: Seq<u8>)
    requires
        recs.len() + data.len() / 120 <= u64::MAX,
    ensures
        chain_ends(recs + saved_records(data, recs.len() as int), (recs.len() + data.len() / 120) as u64),
        chain_of(recs + saved_records(data, recs.len() as int), (recs.len() + data.len() / 120) as u64) matches Walk::Done(
            d,
        ) && holds_value(d, data),
{
    lemma_save_then_load(recs, data);
    let n = (data.len() / 120) as int;
    assert(n * 120 <= data.len() < n * 120 + 120) by (nonlinear_arith)
        requires
            n == data.len() / 120,
    ;
    let d = padded(data);
    assert(d.len() == (n + 1) * 120);
    assert forall|i: int| 0 <= i < data.len() implies #[trigger] d[i] == data[i] by {}
    assert forall|i: int| data.len() <= i < d.len() implies #[trigger] d[i] == 0 by {}
}

/// Saving more data leaves every value already saved readable as it was:
/// a chain that ends in a store ends the same way once records are appended.
pub proof fn lemma_append_keeps_chains(recs: Seq<RecordView>, more: Seq<RecordView>, id: u64)
    requires
        chain_ends(recs, id),
        chain_of(recs, id) is Done,
    ensures
        chain_ends(recs + more, id),
        chain_of(recs + more, id) == chain_of(recs, id),
{
    let f = choose|fuel: nat| !(#[trigger] walk(recs, id, fuel) is Unfinished);
    lemma_walk_extend(recs, more, id, f);
    lemma_chain_of(recs + more, id, f);
}

/// Data without a zero byte reads back as itself up to the first zero: the
/// padding of its last record always holds one.
pub proof fn lemma_padded_first_nul(data: Seq<u8>)
    requires
        forall|i: int| 0 <= i < data.len() ==> data[i] != 0,
    ensures
        first_nul(padded(data)) == data.len(),
        padded(data).take(data.len() as int) == data,
{
    let n = (data.len() / 120) as int;
    assert(n * 120 <= data.len() < n * 120 + 120) by (nonlinear_arith)
        requires
            n == data.len() / 120,
    ;
    let pad = padded(data);
    assert(pad.len() > data.len());
    assert(pad[data.len() as int] == 0);
    assert(is_first_nul(pad, data.len() as int));
    lemma_first_nul_unique(pad, data.len() as int);
    assert(pad.take(data.len() as int) =~= data);
}

/// A string without a NUL character that is saved reads back as the same
/// string: its UTF-8 bytes are the saved data, and they decode to it.
pub proof fn lemma_string_roundtrip(s: Seq<char>)
    requires
        forall|i: int| 0 <= i < encode_utf8(s).len() ==> encode_utf8(s)[i] != 0,
    ensures
        padded(encode_utf8(s)).take(first_nul(padded(encode_utf8(s)))) == encode_utf8(s),
        valid_utf8(encode_utf8(s)),
        decode_utf8(encode_utf8(s)) == s,
{
    lemma_padded_first_nul(encode_utf8(s));
    encode_utf8_valid_utf8(s);
    encode_utf8_decode_utf8(s);
}

/// A store of values of any length, each kept as a chain of fixed-size
/// records.
pub struct DynamicStore {
    records_manager: RecordsManager,
    file: String,
}

impl View for DynamicStore {
    type V = Seq<RecordView>;

    closed spec fn view(&self) -> Seq<RecordView> {
        self.records_manager@.map_values(|b: Seq<u8>| spec_dr_from_bytes(b))
    }
}

impl DynamicStore {
    /// The record file is well formed and made of records of the dynamic
    /// store's size.
    pub closed spec fn wf(&self) -> bool {
        &&& self.records_manager.wf()
        &&& self.records_manager.spec_record_size() == DYN_RECORD_SIZE
    }

    /// The path of the file that the store is kept in.
    pub closed spec fn spec_file(&self) -> Seq<char> {
        self.file@
    }

    /// How many records have already been handed out by [`DynamicStore::sync`].
    pub closed spec fn spec_flushed(&self) -> nat {
        self.records_manager.spec_flushed()
    }

    /// The bytes the store's records are kept as in its file.
    pub closed spec fn spec_image(&self) -> Seq<Seq<u8>> {
        self.records_manager@
    }

    /// What the store's file holds: the bytes the store was opened from,
    /// then everything [`DynamicStore::sync`] has handed out since.
    pub closed spec fn spec_written(&self) -> Seq<u8> {
        flatten(self.records_manager@.subrange(0, self.records_manager.spec_flushed() as int))
    }

    /// An empty store that belongs to the file `file`.
    pub fn new(file: &str) -> (ds: Self)
        ensures
            ds.wf(),
            ds@ == Seq::<RecordView>::empty(),
            ds.spec_file() == file@,
            ds.spec_flushed() == 0,
            ds.spec_written() == Seq::<u8>::empty(),
    {
        let ds = DynamicStore { records_manager: RecordsManager::new(DYN_RECORD_SIZE), file: file.to_owned() };
        assert(ds@ =~= Seq::<RecordView>::empty());
        assert(ds.records_manager@.subrange(0, 0) =~= Seq::<Seq<u8>>::empty());
        ds
    }

    /// The store kept in the file `file` whose bytes are `image`, all of its
    /// records already written out; `None` where the length of `image` is
    /// not a multiple of the record size.
    pub fn open(file: &str, image: &[u8]) -> (ds: Option<Self>)
        ensures
            image@.len() % (DYN_RECORD_SIZE as nat) != 0 ==> ds is None,
            image@.len() % (DYN_RECORD_SIZE as nat) == 0 ==> {
                &&& ds is Some
                &&& ds.unwrap().wf()
                &&& ds.unwrap().spec_image() == chunks(image@, DYN_RECORD_SIZE as nat)
                &&& ds.unwrap()@ == chunks(image@, DYN_RECORD_SIZE as nat).map_values(|b: Seq<u8>| spec_dr_from_bytes(b))
                &&& ds.unwrap().spec_file() == file@
                &&& ds.unwrap().spec_flushed() == ds.unwrap()@.len()
                &&& ds.unwrap().spec_written() == image@
            },
    {
        match RecordsManager::from_image(DYN_RECORD_SIZE, image) {
            Some(rm) => {
                let ds = DynamicStore { records_manager: rm, file: file.to_owned() };
                assert(ds@ =~= chunks(image@, DYN_RECORD_SIZE as nat).map_values(|b: Seq<u8>| spec_dr_from_bytes(b)));
                proof {
                    lemma_flatten_chunks(image@, DYN_RECORD_SIZE as nat);
                    assert(ds.records_manager@.subrange(0, ds.records_manager@.len() as int) =~= ds.records_manager@);
                }
                Some(ds)
            },
            None => None,
        }
    }

    /// A store reopened from the bytes of its file holds the records it
    /// held: its records laid end to end cut back into the same records.
    pub proof fn lemma_reopen(&self)
        requires
            self.wf(),
        ensures
            chunks(flatten(self.spec_image()), DYN_RECORD_SIZE as nat) == self.spec_image(),
            self@ == self.spec_image().map_values(|b: Seq<u8>| spec_dr_from_bytes(b)),
    {
        self.records_manager.lemma_record_sizes();
        lemma_chunks_flatten(self.spec_image(), DYN_RECORD_SIZE as nat);
    }

    /// Syncing twice with nothing created in between hands out nothing the
    /// second time: once synced, every record is written out.
    pub proof fn lemma_sync_twice(&self)
        requires
            self.wf(),
            self.spec_flushed() == self@.len(),
        ensures
            flatten(self.spec_image().subrange(self.spec_flushed() as int, self@.len() as int)) == Seq::<u8>::empty(),
    {
        assert(self.spec_image().subrange(self.spec_flushed() as int, self@.len() as int) =~= Seq::<Seq<u8>>::empty());
    }

    /// Reopening after a sync: once every record is written out, the bytes
    /// the store's file holds (those it was opened from, then all that its
    /// syncs handed out) are whole records, and [`DynamicStore::open`] cuts
    /// them back into the store's records.
    pub proof fn lemma_reopen_after_sync(&self)
        requires
            self.wf(),
            self.spec_flushed() == self@.len(),
        ensures
            self.spec_written() == flatten(self.spec_image()),
            self.spec_written().len() % (DYN_RECORD_SIZE as nat) == 0,
            chunks(self.spec_written(), DYN_RECORD_SIZE as nat) == self.spec_image(),
            chunks(self.spec_written(), DYN_RECORD_SIZE as nat).map_values(|b: Seq<u8>| spec_dr_from_bytes(b)) == self@,
    {
        self.records_manager.lemma_record_sizes();
        let image = self.spec_image();
        assert(image.subrange(0, image.len() as int) =~= image);
        lemma_flatten_len(image, DYN_RECORD_SIZE as nat);
        assert((image.len() * (DYN_RECORD_SIZE as nat)) % (DYN_RECORD_SIZE as nat) == 0) by (nonlinear_arith);
        self.lemma_reopen();
    }

    /// Appends the record `dr` and returns its id.
    pub fn create(&mut self, dr: &DynamicStoreRecord) -> (id: Option<u64>)
        requires
            old(self).wf(),
        ensures
            final(self).wf(),
            id is Some && id.unwrap() == old(self)@.len(),
            final(self)@ == old(self)@.push(dr@),
            final(self).spec_file() == old(self).spec_file(),
            final(self).spec_flushed() == old(self).spec_flushed(),
            final(self).spec_written() == old(self).spec_written(),
    {
        let bytes = dr_to_bytes(dr);
        proof {
            lemma_dr_bytes_roundtrip(dr@);
            self.records_manager.lemma_record_sizes();
        }
        let id = self.records_manager.create(bytes.as_slice());
        assert(self@ =~= old(self)@.push(dr@));
        assert(self.records_manager@.subrange(0, self.records_manager.spec_flushed() as int) =~= old(
            self,
        ).records_manager@.subrange(0, old(self).records_manager.spec_flushed() as int));
        Some(id)
    }

    /// Saves `data` as a chain of records and returns the id of the chain's
    /// first record. The data is cut into 120-byte chunks (the last one
    /// padded with zeros, and an empty one where the length is a multiple of
    /// 120); the last chunk is written first and every record points at the
    /// record of the chunk that follows it.
    pub fn save_data(&mut self, data: &[u8]) -> (id: Option<u64>)
        requires
            old(self).wf(),
        ensures
            final(self).wf(),
            id is Some && id.unwrap() == old(self)@.len() + data@.len() / 120,
            final(self)@ == old(self)@ + saved_records(data@, old(self)@.len() as int),
            final(self).spec_file() == old(self).spec_file(),
            final(self).spec_flushed() == old(self).spec_flushed(),
            final(self).spec_written() == old(self).spec_written(),
            chain_ends(final(self)@, id.unwrap()),
            chain_of(final(self)@, id.unwrap()) matches Walk::Done(d) && holds_value(d, data@),
    {
        let ghost base = self@.len() as int;
        let ghost n: int = (data@.len() / 120) as int;
        let ghost saved = saved_records(data@, base);
        let ghost pad = padded(data@);
        let mut count = data.len() / 120;
        let rest = data.len() % 120;
        assert(count * 120 + rest == data@.len() && rest < 120) by (nonlinear_arith)
            requires
                count == data@.len() / 120,
                rest == data@.len() % 120,
        ;
        let mut next = 0u64;
        let mut has_next = false;
        let mut end = rest + count * 120;
        loop
            invariant_except_break
                self.wf(),
                count <= n,
                end == if count == n { data@.len() as int } else { count * 120 + 120 },
                has_next == (count < n),
                count < n ==> next == base + (n - count) - 1,
                count == n ==> next == 0,
                self@ == old(self)@ + saved.take(n - count),
                self.spec_file() == old(self).spec_file(),
                self.spec_flushed() == old(self).spec_flushed(),
                self.spec_written() == old(self).spec_written(),
            invariant
                n == data@.len() / 120,
                n * 120 <= data@.len() < n * 120 + 120,
                pad == padded(data@),
                saved == saved_records(data@, base),
                base == old(self)@.len(),
            ensures
                count == 0,
                next == base + n,
                self.wf(),
                self@ == old(self)@ + saved,
                self.spec_file() == old(self).spec_file(),
                self.spec_flushed() == old(self).spec_flushed(),
                self.spec_written() == old(self).spec_written(),
            decreases count,
        {
            let mut dr = DynamicStoreRecord { in_use: true, has_next: has_next, data: [0u8; 120], next: next };
            let start = count * 120;
            let len = end - start;
            let mut i: usize = 0;
            while i < len
                invariant
                    0 <= i <= len,
                    len <= 120,
                    start + len == end,
                    end <= data@.len(),
                    dr.data@.len() == 120,
                    forall|k: int| 0 <= k < i ==> dr.data@[k] == data@[start + k],
                    forall|k: int| i <= k < 120 ==> dr.data@[k] == 0,
                    dr.has_next == has_next,
                    dr.next == next,
                    dr.in_use,
                decreases len - i,
            {
                dr.data[i] = data[start + i];
                i = i + 1;
            }
            let ghost j: int = n - count;
            assert(dr@ == saved[j]) by {
                assert(pad.len() == (n + 1) * 120);
                assert(end == if start + 120 <= data@.len() { start + 120 } else { data@.len() as int });
                assert forall|k: int| 0 <= k < 120 implies dr.data@[k] == chunk(data@, n - j)[k] by {
                    assert(chunk(data@, n - j)[k] == pad[start + k]);
                    if start + k < data@.len() {
                        assert(pad[start + k] == data@[start + k]);
                    } else {
                        assert(pad[start + k] == 0);
                    }
                }
                assert(dr.data@ =~= chunk(data@, n - j));
            }
            let created = self.create(&dr);
            next = created.unwrap();
            assert(saved.take(j + 1) =~= saved.take(j).push(saved[j]));
            end = start;
            has_next = true;
            if count == 0 {
                assert(saved.take(n + 1) =~= saved);
                break;
            } else {
                count -= 1;
            }
        }
        proof {
            lemma_saved_value_reads_back(old(self)@, data@);
        }
        Some(next)
    }

    /// The record `dr_id`, or `None` where there is no such record.
    pub fn load(&mut self, dr_id: u64) -> (dr: Option<DynamicStoreRecord>)
        requires
            old(self).wf(),
        ensures
            *final(self) == *old(self),
            dr_id < old(self)@.len() ==> dr is Some && dr.unwrap()@ == old(self)@[dr_id as int],
            dr_id >= old(self)@.len() ==> dr is None,
    {
        proof {
            self.records_manager.lemma_record_sizes();
        }
        match self.records_manager.load(dr_id) {
            Ok(bytes) => Some(dr_from_bytes(bytes.as_slice())),
            Err(_) => None,
        }
    }

    /// Loads the bytes of the chain of records that starts at `id`: the
    /// payloads of all its records, in chain order, or `None` where the chain
    /// runs into a record that does not exist. A chain that comes back to a
    /// record it went through never ends; it is followed for one step more
    /// than there are records, and gives `None`.
    pub fn load_data(&mut self, id: u64) -> (res: Option<Vec<u8>>)
        requires
            old(self).wf(),
        ensures
            *final(self) == *old(self),
            match walk(old(self)@, id, (old(self)@.len() + 1) as nat) {
                Walk::Done(d) => res is Some && res.unwrap()@ == d,
                _ => res is None,
            },
            chain_ends(old(self)@, id) ==> match chain_of(old(self)@, id) {
                Walk::Done(d) => res is Some && res.unwrap()@ == d,
                _ => res is None,
            },
            !chain_ends(old(self)@, id) ==> res is None,
    {
        let ghost recs = self@;
        let ghost fuel: nat = (recs.len() + 1) as nat;
        proof {
            if chain_ends(recs, id) {
                lemma_walk_bounded(recs, id);
            } else if walk(recs, id, fuel) is Done {
                lemma_chain_of(recs, id, fuel);
            }
        }
        let mut left: usize = self.records_manager.len();
        let mut data: Vec<u8> = Vec::new();
        let mut next = id;
        let mut has_next = true;
        let ghost mut steps: nat = 0;
        while has_next
            invariant
                self.wf(),
                *self == *old(self),
                recs == self@,
                fuel == recs.len() + 1,
                steps <= fuel,
                chain_ends(recs, id) ==> chain_of(recs, id) == walk(recs, id, fuel),
                !chain_ends(recs, id) ==> !(walk(recs, id, fuel) is Done),
                has_next ==> left + 1 == fuel - steps,
                has_next ==> walk(recs, id, fuel) == match walk(recs, next, (fuel - steps) as nat) {
                    Walk::Done(d) => Walk::Done(data@ + d),
                    w => w,
                },
                !has_next ==> walk(recs, id, fuel) == Walk::Done(data@),
            decreases fuel - steps,
        {
            let dr = match self.load(next) {
                Some(dr) => dr,
                None => {
                    return None;
                },
            };
            let ghost before = data@;
            let mut j: usize = 0;
            while j < 120
                invariant
                    0 <= j <= 120,
                    dr.data@.len() == 120,
                    data@ == before + dr.data@.take(j as int),
                decreases 120 - j,
            {
                data.push(dr.data[j]);
                j = j + 1;
                assert(dr.data@.take(j as int) =~= dr.data@.take(j - 1).push(dr.data@[j - 1]));
                assert(before + dr.data@.take(j as int) =~= (before + dr.data@.take(j - 1)).push(dr.data@[j - 1]));
            }
            assert(dr.data@.take(120) =~= dr.data@);
            proof {
                if dr.has_next {
                    let inner = walk(recs, dr.next, (fuel - steps - 1) as nat);
                    match inner {
                        Walk::Done(d) => {
                            assert(before + (dr.data@ + d) =~= data@ + d);
                        },
                        _ => {},
                    }
                }
            }
            has_next = dr.has_next;
            next = dr.next;
            proof {
                steps = steps + 1;
            }
            if has_next {
                if left == 0 {
                    return None;
                }
                left = left - 1;
            }
        }
        Some(data)
    }

    /// Loads the chain that starts at `id` as a string: the bytes before the
    /// first zero byte, read as UTF-8; `None` where the chain is broken or
    /// those bytes are not UTF-8.
    pub fn load_string(&mut self, id: u64) -> (res: Option<String>)
        requires
            old(self).wf(),
        ensures
            *final(self) == *old(self),
            !chain_ends(old(self)@, id) ==> res is None,
            chain_ends(old(self)@, id) ==> match chain_of(old(self)@, id) {
                Walk::Done(d) => {
                    let s = d.take(first_nul(d));
                    if valid_utf8(s) {
                        res is Some && res.unwrap()@ == decode_utf8(s)
                    } else {
                        res is None
                    }
                },
                _ => res is None,
            },
    {
        let load = match self.load_data(id) {
            Some(l) => l,
            None => {
                return None;
            },
        };
        let mut str_end: usize = 0;
        while str_end < load.len() && load[str_end] != 0
            invariant
                0 <= str_end <= load@.len(),
                forall|j: int| 0 <= j < str_end ==> load@[j] != 0,
            decreases load@.len() - str_end,
        {
            str_end = str_end + 1;
        }
        proof {
            lemma_first_nul_unique(load@, str_end as int);
        }
        let mut result: Vec<u8> = Vec::new();
        let mut i: usize = 0;
        while i < str_end
            invariant
                0 <= i <= str_end <= load@.len(),
                result@ == load@.take(i as int),
            decreases str_end - i,
        {
            result.push(load[i]);
            i = i + 1;
            assert(load@.take(i as int) =~= load@.take(i - 1).push(load@[i - 1]));
        }
        string_from_utf8(result)
    }

    /// The bytes of the records not yet written to the store's file, in the
    /// order of their ids: what is to be appended to the file. Nothing is
    /// marked as written; [`DynamicStore::mark_synced`] does that once the
    /// bytes are in the file.
    pub fn pending(&self) -> (pending: Vec<u8>)
        requires
            self.wf(),
        ensures
            pending@ == flatten(self.spec_image().subrange(self.spec_flushed() as int, self@.len() as int)),
            self.spec_written() + pending@ == flatten(self.spec_image()),
    {
        proof {
            self.records_manager.lemma_record_sizes();
            lemma_flatten_split(self.records_manager@, self.records_manager.spec_flushed() as int, self.records_manager@.len() as int);
            assert(self.records_manager@.subrange(0, self.records_manager@.len() as int) =~= self.records_manager@);
        }
        self.records_manager.pending()
    }

    /// Marks every record as written to the store's file: what
    /// [`DynamicStore::pending`] handed out is now in it.
    pub fn mark_synced(&mut self)
        requires
            old(self).wf(),
        ensures
            final(self).wf(),
            final(self)@ == old(self)@,
            final(self).spec_file() == old(self).spec_file(),
            final(self).spec_image() == old(self).spec_image(),
            final(self).spec_flushed() == old(self)@.len(),
            final(self).spec_written() == flatten(old(self).spec_image()),
    {
        proof {
            self.records_manager.lemma_record_sizes();
        }
        self.records_manager.mark_synced();
        assert(self@ =~= old(self)@);
        assert(self.records_manager@.subrange(0, self.records_manager@.len() as int) =~= self.records_manager@);
    }

    /// Marks every record as written to the store's file and returns the
    /// bytes of the records that had not been yet, in the order of their
    /// ids: what is to be appended to the file.
    pub fn sync(&mut self) -> (pending: Vec<u8>)
        requires
            old(self).wf(),
        ensures
            final(self).wf(),
            final(self)@ == old(self)@,
            final(self).spec_file() == old(self).spec_file(),
            final(self).spec_image() == old(self).spec_image(),
            final(self).spec_flushed() == old(self)@.len(),
            pending@ == flatten(old(self).spec_image().subrange(old(self).spec_flushed() as int, old(self)@.len() as int)),
            final(self).spec_written() == old(self).spec_written() + pending@,
    {
        proof {
            self.records_manager.lemma_record_sizes();
            lemma_flatten_split(self.records_manager@, self.records_manager.spec_flushed() as int, self.records_manager@.len() as int);
        }
        let pending = self.records_manager.sync();
        assert(self@ =~= old(self)@);
        pending
    }

    /// The path of the file that the store belongs to.
    pub fn file(&self) -> (f: &str)
        ensures
            f@ == self.spec_file(),
    {
        self.file.as_str()
    }
}

/// `String::from_utf8`, with the error dropped. The contract claims what
/// its documentation says: it gives a string exactly when the bytes are
/// valid UTF-8, and that string's characters are the ones the bytes encode.
#[verifier::external_body]
fn string_from_utf8(bytes: Vec<u8>) -> (res: Option<String>)
    ensures
        valid_utf8(bytes@) ==> res is Some && res.unwrap()@ == decode_utf8(bytes@),
        !valid_utf8(bytes@) ==> res is None,
{
    String::from_utf8(bytes).ok()
}

} // verus!
