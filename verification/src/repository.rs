use crate::model::{Property, PropertyValue};
use vstd::prelude::*;

verus! {

/// A copy of a property value.
pub fn copy_property_value(v: &PropertyValue) -> (r: PropertyValue)
    ensures
        r == *v,
{
    match v {
        PropertyValue::PString(s) => PropertyValue::PString(s.clone()),
        PropertyValue::PInteger(i) => PropertyValue::PInteger(*i),
        PropertyValue::PFloat(f) => PropertyValue::PFloat(*f),
        PropertyValue::PBool(b) => PropertyValue::PBool(*b),
    }
}

/// A copy of a property.
pub fn copy_property(p: &Property) -> (r: Property)
    ensures
        r == *p,
{
    Property { id: p.id, name: p.name.clone(), value: copy_property_value(&p.value) }
}

/// `props` with the ids `first`, `first + 1`, ... given to its properties in
/// order.
pub open spec fn with_ids(props: Seq<Property>, first: int) -> Seq<Property> {
    Seq::new(
        props.len(),
        |i: int| Property { id: Some((first + i) as u64), name: props[i].name, value: props[i].value },
    )
}

/// Every stored property has an id below `next`, and no two stored
/// properties share an id.
pub open spec fn ids_unique(lists: Seq<Seq<Property>>, next: u64) -> bool {
    &&& forall|l: int, i: int|
        0 <= l < lists.len() && 0 <= i < lists[l].len() ==> #[trigger] lists[l][i].id is Some
            && lists[l][i].id.unwrap() < next
    &&& forall|l1: int, i1: int, l2: int, i2: int|
        0 <= l1 < lists.len() && 0 <= i1 < lists[l1].len() && 0 <= l2 < lists.len() && 0 <= i2 < lists[l2].len()
            && (l1 != l2 || i1 != i2) ==> #[trigger] lists[l1][i1].id != #[trigger] lists[l2][i2].id
}

/// The lists of properties of a graph, each known by its id.
pub struct PropertiesRespository {
    lists: Vec<Vec<Property>>,
    next_property_id: u64,
}

impl View for PropertiesRespository {
    type V = Seq<Seq<Property>>;

    closed spec fn view(&self) -> Seq<Seq<Property>> {
        self.lists@.map_values(|l: Vec<Property>| l@)
    }
}

impl PropertiesRespository {
    /// The id the next stored property gets.
    pub closed spec fn spec_next_property_id(&self) -> u64 {
        self.next_property_id
    }

    /// An empty repository.
    pub fn new() -> (r: Self)
        ensures
            r@ == Seq::<Seq<Property>>::empty(),
            r.spec_next_property_id() == 0,
            ids_unique(r@, r.spec_next_property_id()),
    {
        let r = PropertiesRespository { lists: Vec::new(), next_property_id: 0 };
        assert(r@ =~= Seq::<Seq<Property>>::empty());
        r
    }

    /// Stores a list of properties: gives each property the next property id
    /// (writing it into `properties`) and returns the id of the list.
    /// `None` where the property ids would run past `u64::MAX`.
    pub fn create_list(&mut self, properties: &mut Vec<Property>) -> (id: Option<u64>)
        requires
            ids_unique(old(self)@, old(self).spec_next_property_id()),
        ensures
            ids_unique(final(self)@, final(self).spec_next_property_id()),
            old(self).spec_next_property_id() + old(properties)@.len() <= u64::MAX ==> {
                &&& id is Some && id.unwrap() == old(self)@.len()
                &&& final(properties)@ == with_ids(old(properties)@, old(self).spec_next_property_id() as int)
                &&& final(self)@ == old(self)@.push(final(properties)@)
                &&& final(self).spec_next_property_id() == old(self).spec_next_property_id() + old(properties)@.len()
            },
            old(self).spec_next_property_id() + old(properties)@.len() > u64::MAX ==> {
                &&& id is None
                &&& final(properties)@ == old(properties)@
                &&& *final(self) == *old(self)
            },
    {
        if properties.len() as u64 > u64::MAX - self.next_property_id {
            return None;
        }
        let ghost first = self.next_property_id as int;
        let ghost orig = properties@;
        let mut stored: Vec<Property> = Vec::new();
        let mut i: usize = 0;
        while i < properties.len()
            invariant
                0 <= i <= properties@.len(),
                properties@.len() == orig.len(),
                first + orig.len() <= u64::MAX,
                self.next_property_id == first + i,
                self.lists == old(self).lists,
                stored@.len() == i,
                forall|k: int| 0 <= k < i ==> #[trigger] properties@[k] == with_ids(orig, first)[k],
                forall|k: int| i <= k < orig.len() ==> #[trigger] properties@[k] == orig[k],
                forall|k: int| 0 <= k < i ==> #[trigger] stored@[k] == properties@[k],
            decreases orig.len() - i,
        {
            let mut p = copy_property(&properties[i]);
            p.id = Some(self.next_property_id);
            let copy = copy_property(&p);
            properties.set(i, p);
            stored.push(copy);
            self.next_property_id = self.next_property_id + 1;
            i = i + 1;
        }
        let id = self.lists.len() as u64;
        let ghost before = self.lists@;
        self.lists.push(stored);
        proof {
            assert(properties@ =~= with_ids(orig, first));
            assert(stored@ =~= properties@);
            assert(self@ =~= old(self)@.push(properties@));
            let lists = self@;
            let n = old(self)@.len() as int;
            assert forall|l: int, i: int|
                0 <= l < lists.len() && 0 <= i < lists[l].len() implies #[trigger] lists[l][i].id is Some
                    && lists[l][i].id.unwrap() < self.next_property_id by {
                if l < n {
                    assert(lists[l] == old(self)@[l]);
                }
            }
            assert forall|l1: int, i1: int, l2: int, i2: int|
                0 <= l1 < lists.len() && 0 <= i1 < lists[l1].len() && 0 <= l2 < lists.len() && 0 <= i2 < lists[l2].len()
                    && (l1 != l2 || i1 != i2) implies #[trigger] lists[l1][i1].id != #[trigger] lists[l2][i2].id by {
                if l1 < n {
                    assert(lists[l1] == old(self)@[l1]);
                    assert(old(self)@[l1][i1].id.unwrap() < first);
                }
                if l2 < n {
                    assert(lists[l2] == old(self)@[l2]);
                    assert(old(self)@[l2][i2].id.unwrap() < first);
                }
                if l1 == n {
                    assert(lists[l1][i1].id == Some((first + i1) as u64));
                }
                if l2 == n {
                    assert(lists[l2][i2].id == Some((first + i2) as u64));
                }
            }
        }
        Some(id)
    }

    /// A copy of the list `id`, or `None` where there is no such list.
    pub fn retrieve_list(&self, id: u64) -> (res: Option<Vec<Property>>)
        ensures
            id < self@.len() ==> res is Some && res.unwrap()@ == self@[id as int],
            id >= self@.len() ==> res is None,
    {
        if id >= self.lists.len() as u64 {
            return None;
        }
        let src = &self.lists[id as usize];
        let mut out: Vec<Property> = Vec::new();
        let mut i: usize = 0;
        while i < src.len()
            invariant
                0 <= i <= src@.len(),
                out@.len() == i,
                forall|k: int| 0 <= k < i ==> #[trigger] out@[k] == src@[k],
            decreases src@.len() - i,
        {
            out.push(copy_property(&src[i]));
            i = i + 1;
        }
        assert(out@ =~= src@);
        Some(out)
    }

    /// Removes every list; property ids start again from 0.
    pub fn clear(&mut self)
        ensures
            final(self)@ == Seq::<Seq<Property>>::empty(),
            final(self).spec_next_property_id() == 0,
            ids_unique(final(self)@, final(self).spec_next_property_id()),
    {
        self.lists = Vec::new();
        self.next_property_id = 0;
        assert(self@ =~= Seq::<Seq<Property>>::empty());
    }
}

/// An index from keys to the ids stored under them, in the order they were
/// inserted.
pub struct BTreeIndex {
    entries: Vec<(String, Vec<u64>)>,
}

impl View for BTreeIndex {
    type V = Map<Seq<char>, Seq<u64>>;

    closed spec fn view(&self) -> Map<Seq<char>, Seq<u64>> {
        Map::new(
            |k: Seq<char>| exists|i: int| 0 <= i < self.entries@.len() && #[trigger] self.entries@[i].0@ == k,
            |k: Seq<char>|
                self.entries@[choose|i: int| 0 <= i < self.entries@.len() && #[trigger] self.entries@[i].0@ == k].1@,
        )
    }
}

impl BTreeIndex {
    /// No key is held twice.
    pub closed spec fn wf(&self) -> bool {
        forall|i: int, j: int|
            0 <= i < j < self.entries@.len() ==> #[trigger] self.entries@[i].0@ != #[trigger] self.entries@[j].0@
    }

    proof fn lemma_entry(&self, i: int)
        requires
            self.wf(),
            0 <= i < self.entries@.len(),
        ensures
            self@.contains_key(self.entries@[i].0@),
            self@[self.entries@[i].0@] == self.entries@[i].1@,
    {
        let k = self.entries@[i].0@;
        let c = choose|j: int| 0 <= j < self.entries@.len() && #[trigger] self.entries@[j].0@ == k;
        assert(self.entries@[i].0@ == k);
        if c != i {
            if c < i {
                assert(self.entries@[c].0@ != self.entries@[i].0@);
            } else {
                assert(self.entries@[i].0@ != self.entries@[c].0@);
            }
        }
    }

    /// An empty index.
    pub fn new() -> (idx: Self)
        ensures
            idx.wf(),
            idx@ == Map::<Seq<char>, Seq<u64>>::empty(),
    {
        let idx = BTreeIndex { entries: Vec::new() };
        assert(idx@ =~= Map::<Seq<char>, Seq<u64>>::empty());
        idx
    }

    /// Where `key` is held, if it is.
    fn find(&self, key: &str) -> (pos: Option<usize>)
        requires
            self.wf(),
        ensures
            match pos {
                Some(i) => i < self.entries@.len() && self.entries@[i as int].0@ == key@,
                None => !self@.contains_key(key@),
            },
    {
        let k = key.to_owned();
        let mut i: usize = 0;
        while i < self.entries.len()
            invariant
                0 <= i <= self.entries@.len(),
                k@ == key@,
                forall|j: int| 0 <= j < i ==> #[trigger] self.entries@[j].0@ != key@,
            decreases self.entries@.len() - i,
        {
            if self.entries[i].0 == k {
                return Some(i);
            }
            i = i + 1;
        }
        None
    }

    /// Adds `id` at the end of the ids stored under `key`.
    pub fn insert(&mut self, key: &str, id: u64) -> (res: Option<()>)
        requires
            old(self).wf(),
        ensures
            final(self).wf(),
            res == Some(()),
            final(self)@ == old(self)@.insert(
                key@,
                if old(self)@.contains_key(key@) { old(self)@[key@].push(id) } else { seq![id] },
            ),
    {
        match self.find(key) {
            Some(i) => {
                proof {
                    self.lemma_entry(i as int);
                }
                let ghost old_entries = self.entries@;
                let mut entry = self.entries.remove(i);
                entry.1.push(id);
                self.entries.insert(i, entry);
                proof {
                    assert forall|a: int, b: int|
                        0 <= a < b < self.entries@.len() implies #[trigger] self.entries@[a].0@ != #[trigger] self.entries@[b].0@ by {
                        assert(self.entries@[a].0@ == old_entries[a].0@);
                        assert(self.entries@[b].0@ == old_entries[b].0@);
                    }
                    assert forall|k: Seq<char>| #[trigger] self@.contains_key(k) <==> old(self)@.insert(key@, old(self)@[key@].push(id)).contains_key(k) by {
                        if self@.contains_key(k) {
                            let j = choose|j: int| 0 <= j < self.entries@.len() && #[trigger] self.entries@[j].0@ == k;
                            assert(old_entries[j].0@ == k);
                        }
                        if old(self)@.contains_key(k) {
                            let j = choose|j: int| 0 <= j < old_entries.len() && #[trigger] old_entries[j].0@ == k;
                            assert(self.entries@[j].0@ == k);
                        }
                    }
                    assert forall|k: Seq<char>| #[trigger] self@.contains_key(k) implies self@[k] == old(self)@.insert(key@, old(self)@[key@].push(id))[k] by {
                        let j = choose|j: int| 0 <= j < self.entries@.len() && #[trigger] self.entries@[j].0@ == k;
                        self.lemma_entry(j);
                        if j != i {
                            old(self).lemma_entry(j);
                            assert(old_entries[j] == self.entries@[j]);
                        }
                    }
                    assert(self@ =~= old(self)@.insert(key@, old(self)@[key@].push(id)));
                }
            },
            None => {
                let ghost old_entries = self.entries@;
                let mut ids: Vec<u64> = Vec::new();
                ids.push(id);
                self.entries.push((key.to_owned(), ids));
                proof {
                    let n = old_entries.len() as int;
                    assert forall|a: int, b: int|
                        0 <= a < b < self.entries@.len() implies #[trigger] self.entries@[a].0@ != #[trigger] self.entries@[b].0@ by {
                        assert(self.entries@[a] == old_entries[a]);
                        if b == n {
                            assert(!old(self)@.contains_key(key@));
                            assert(old_entries[a].0@ != key@);
                        } else {
                            assert(self.entries@[b] == old_entries[b]);
                        }
                    }
                    assert forall|k: Seq<char>| #[trigger] self@.contains_key(k) <==> old(self)@.insert(key@, seq![id]).contains_key(k) by {
                        if self@.contains_key(k) {
                            let j = choose|j: int| 0 <= j < self.entries@.len() && #[trigger] self.entries@[j].0@ == k;
                            if j < n {
                                assert(old_entries[j].0@ == k);
                            }
                        }
                        if old(self)@.contains_key(k) {
                            let j = choose|j: int| 0 <= j < old_entries.len() && #[trigger] old_entries[j].0@ == k;
                            assert(self.entries@[j].0@ == k);
                        }
                        if k == key@ {
                            assert(self.entries@[n].0@ == k);
                        }
                    }
                    assert forall|k: Seq<char>| #[trigger] self@.contains_key(k) implies self@[k] == old(self)@.insert(key@, seq![id])[k] by {
                        let j = choose|j: int| 0 <= j < self.entries@.len() && #[trigger] self.entries@[j].0@ == k;
                        self.lemma_entry(j);
                        if j < n {
                            old(self).lemma_entry(j);
                            assert(old_entries[j] == self.entries@[j]);
                        } else {
                            assert(self.entries@[n].1@ =~= seq![id]);
                        }
                    }
                    assert(self@ =~= old(self)@.insert(key@, seq![id]));
                }
            },
        }
        Some(())
    }

    /// The ids stored under `key`, or `None` where the key is not held.
    pub fn search(&self, key: &str) -> (res: Option<Vec<u64>>)
        requires
            self.wf(),
        ensures
            self@.contains_key(key@) ==> res is Some && res.unwrap()@ == self@[key@],
            !self@.contains_key(key@) ==> res is None,
    {
        match self.find(key) {
            Some(i) => {
                proof {
                    self.lemma_entry(i as int);
                }
                Some(self.entries[i].1.clone())
            },
            None => None,
        }
    }

    /// Removes every key.
    pub fn clear(&mut self)
        ensures
            final(self).wf(),
            final(self)@ == Map::<Seq<char>, Seq<u64>>::empty(),
    {
        self.entries = Vec::new();
        assert(self@ =~= Map::<Seq<char>, Seq<u64>>::empty());
    }
}

/// The lists of properties stored under `key` in an index `idx` over the
/// lists `lists`, in the order they were stored.
pub open spec fn lists_under(idx: Map<Seq<char>, Seq<u64>>, lists: Seq<Seq<Property>>, key: Seq<char>) -> Seq<Seq<Property>> {
    idx[key].map_values(|id: u64| lists[id as int])
}

/// The lists stored under each key by the puts `puts`, made in order on an
/// empty repository.
pub open spec fn replay(puts: Seq<(Seq<char>, Seq<Property>)>) -> Map<Seq<char>, Seq<Seq<Property>>>
    decreases puts.len(),
{
    if puts.len() == 0 {
        Map::empty()
    } else {
        let before = replay(puts.drop_last());
        let key = puts.last().0;
        before.insert(key, if before.contains_key(key) { before[key] } else { Seq::empty() }.push(puts.last().1))
    }
}

/// The number of properties that the puts `puts` store.
pub open spec fn total_len(puts: Seq<(Seq<char>, Seq<Property>)>) -> nat
    decreases puts.len(),
{
    if puts.len() == 0 {
        0
    } else {
        total_len(puts.drop_last()) + puts.last().1.len()
    }
}

/// The puts `puts`, each list with the ids it gets when they are made in
/// order on an empty repository.
pub open spec fn relabel(puts: Seq<(Seq<char>, Seq<Property>)>) -> Seq<(Seq<char>, Seq<Property>)> {
    Seq::new(puts.len(), |i: int| (puts[i].0, with_ids(puts[i].1, total_len(puts.take(i)) as int)))
}

/// Each list of `puts` already carries the ids it gets when they are made in
/// order on an empty repository.
pub open spec fn consecutive_ids(puts: Seq<(Seq<char>, Seq<Property>)>) -> bool {
    forall|i: int| 0 <= i < puts.len() ==> #[trigger] puts[i].1 == with_ids(puts[i].1, total_len(puts.take(i)) as int)
}

/// Giving the same ids twice changes nothing.
proof fn lemma_with_ids_twice(props: Seq<Property>, first: int)
    ensures
        with_ids(with_ids(props, first), first) == with_ids(props, first),
{
    assert(with_ids(with_ids(props, first), first) =~= with_ids(props, first));
}

/// Puts whose lists carry their ids already are their own relabelling.
pub proof fn lemma_relabel_consecutive(puts: Seq<(Seq<char>, Seq<Property>)>)
    requires
        consecutive_ids(puts),
    ensures
        relabel(puts) == puts,
{
    assert forall|i: int| 0 <= i < puts.len() implies #[trigger] relabel(puts)[i] == puts[i] by {
        assert(puts[i].1 == with_ids(puts[i].1, total_len(puts.take(i)) as int));
    }
    assert(relabel(puts) =~= puts);
}

/// The properties of a prefix of the puts are no more than those of all.
proof fn lemma_total_len_prefix(puts: Seq<(Seq<char>, Seq<Property>)>, i: int)
    requires
        0 <= i <= puts.len(),
    ensures
        total_len(puts.take(i)) <= total_len(puts),
    decreases puts.len() - i,
{
    if i < puts.len() {
        lemma_total_len_prefix(puts, i + 1);
        assert(puts.take(i + 1).drop_last() =~= puts.take(i));
    } else {
        assert(puts.take(i) =~= puts);
    }
}

/// Lists of properties stored under keys.
pub struct KeyPropertiesRepository {
    properties_repository: PropertiesRespository,
    properties_index: BTreeIndex,
    pending: Vec<(String, u64)>,
    synced: Ghost<Seq<(Seq<char>, Seq<Property>)>>,
}

impl View for KeyPropertiesRepository {
    type V = Map<Seq<char>, Seq<Seq<Property>>>;

    closed spec fn view(&self) -> Map<Seq<char>, Seq<Seq<Property>>> {
        Map::new(
            |k: Seq<char>| self.properties_index@.contains_key(k),
            |k: Seq<char>| lists_under(self.properties_index@, self.properties_repository@, k),
        )
    }
}

impl KeyPropertiesRepository {
    /// The index is well formed and every id in it names a stored list.
    pub closed spec fn wf(&self) -> bool {
        &&& self.properties_index.wf()
        &&& ids_unique(self.properties_repository@, self.properties_repository.spec_next_property_id())
        &&& forall|k: Seq<char>, i: int|
            #![trigger self.properties_index@[k][i]]
            self.properties_index@.contains_key(k) && 0 <= i < self.properties_index@[k].len()
                ==> self.properties_index@[k][i] < self.properties_repository@.len()
        &&& forall|i: int| 0 <= i < self.pending@.len() ==> #[trigger] self.pending@[i].1 < self.properties_repository@.len()
        &&& self@ == replay(self.synced@ + self.spec_pending())
        &&& self.spec_next_property_id() == total_len(self.synced@ + self.spec_pending())
        &&& consecutive_ids(self.synced@ + self.spec_pending())
    }

    /// The puts handed out by the syncs since the repository was made or
    /// cleared, in order.
    pub closed spec fn spec_synced(&self) -> Seq<(Seq<char>, Seq<Property>)> {
        self.synced@
    }

    /// The puts since the last sync, in order: each key with the list stored
    /// under it.
    pub closed spec fn spec_pending(&self) -> Seq<(Seq<char>, Seq<Property>)> {
        self.pending@.map_values(|e: (String, u64)| (e.0@, self.properties_repository@[e.1 as int]))
    }

    /// The id the next stored property gets.
    pub closed spec fn spec_next_property_id(&self) -> u64 {
        self.properties_repository.spec_next_property_id()
    }

    /// An empty repository.
    pub fn new() -> (r: Self)
        ensures
            r.wf(),
            r@ == Map::<Seq<char>, Seq<Seq<Property>>>::empty(),
            r.spec_next_property_id() == 0,
            r.spec_pending().len() == 0,
            r.spec_synced().len() == 0,
    {
        let r = KeyPropertiesRepository {
            properties_repository: PropertiesRespository::new(),
            properties_index: BTreeIndex::new(),
            pending: Vec::new(),
            synced: Ghost(Seq::empty()),
        };
        assert(r@ =~= Map::<Seq<char>, Seq<Seq<Property>>>::empty());
        assert(r.synced@ + r.spec_pending() =~= Seq::<(Seq<char>, Seq<Property>)>::empty());
        r
    }

    /// Stores `properties` under `key`, after the lists already stored under
    /// it. Each property gets the next property id, written into
    /// `properties`. `None`, with nothing changed, where the property ids
    /// would run past `u64::MAX`.
    pub fn put(&mut self, key: &str, properties: &mut Vec<Property>) -> (res: Option<()>)
        requires
            old(self).wf(),
        ensures
            final(self).wf(),
            old(self).spec_next_property_id() + old(properties)@.len() <= u64::MAX ==> {
                &&& res == Some(())
                &&& final(properties)@ == with_ids(old(properties)@, old(self).spec_next_property_id() as int)
                &&& final(self)@ == old(self)@.insert(
                    key@,
                    if old(self)@.contains_key(key@) { old(self)@[key@] } else { Seq::empty() }.push(final(properties)@),
                )
                &&& final(self).spec_next_property_id() == old(self).spec_next_property_id() + old(properties)@.len()
                &&& final(self).spec_pending() == old(self).spec_pending().push((key@, final(properties)@))
                &&& final(self).spec_synced() == old(self).spec_synced()
            },
            old(self).spec_next_property_id() + old(properties)@.len() > u64::MAX ==> {
                &&& res is None
                &&& final(properties)@ == old(properties)@
                &&& final(self)@ == old(self)@
                &&& final(self).spec_next_property_id() == old(self).spec_next_property_id()
                &&& final(self).spec_pending() == old(self).spec_pending()
                &&& final(self).spec_synced() == old(self).spec_synced()
            },
    {
        let props_id = match self.properties_repository.create_list(properties) {
            Some(id) => id,
            None => {
                return None;
            },
        };
        let ghost old_idx = self.properties_index@;
        let ghost old_lists = old(self).properties_repository@;
        let ghost new_lists = self.properties_repository@;
        let res = self.properties_index.insert(key, props_id);
        let ghost old_pending = self.pending@;
        self.pending.push((key.to_owned(), props_id));
        proof {
            assert forall|i: int| 0 <= i < self.pending@.len() implies #[trigger] self.pending@[i].1 < new_lists.len() by {
                if i < old_pending.len() {
                    assert(old_pending[i] == self.pending@[i]);
                }
            }
            assert forall|i: int| 0 <= i < old_pending.len() implies #[trigger] old_lists[old_pending[i].1 as int] == new_lists[old_pending[i].1 as int] by {
                assert(old_pending[i].1 < old_lists.len());
            }
            assert(self.spec_pending() =~= old(self).spec_pending().push((key@, properties@)));
            let idx = self.properties_index@;
            assert forall|k: Seq<char>, i: int|
                #![trigger idx[k][i]]
                idx.contains_key(k) && 0 <= i < idx[k].len() implies idx[k][i] < new_lists.len() by {
                if k != key@ || (old_idx.contains_key(key@) && i < old_idx[key@].len()) {
                    assert(old_idx[k][i] == idx[k][i]);
                }
            }
            assert forall|k: Seq<char>| #[trigger] old_idx.contains_key(k) implies
                lists_under(old_idx, new_lists, k) == lists_under(old_idx, old_lists, k) by {
                assert forall|i: int| 0 <= i < old_idx[k].len() implies
                    #[trigger] lists_under(old_idx, new_lists, k)[i] == lists_under(old_idx, old_lists, k)[i] by {
                    assert(old_idx[k][i] < old_lists.len());
                }
                assert(lists_under(old_idx, new_lists, k) =~= lists_under(old_idx, old_lists, k));
            }
            let expected = old(self)@.insert(
                key@,
                if old(self)@.contains_key(key@) { old(self)@[key@] } else { Seq::empty() }.push(properties@),
            );
            assert forall|k: Seq<char>| #[trigger] self@.contains_key(k) implies self@[k] == expected[k] by {
                if k == key@ {
                    let prev = if old(self)@.contains_key(key@) { old(self)@[key@] } else { Seq::empty() };
                    let old_ids = if old_idx.contains_key(key@) { old_idx[key@] } else { Seq::empty() };
                    assert(idx[k] =~= old_ids.push(props_id));
                    assert(prev.len() == old_ids.len());
                    assert forall|i: int| 0 <= i < idx[k].len() implies
                        #[trigger] lists_under(idx, new_lists, k)[i] == expected[k][i] by {
                        if i < old_ids.len() {
                            assert(old_idx[k][i] < old_lists.len());
                            assert(prev[i] == old_lists[old_ids[i] as int]);
                        } else {
                            assert(new_lists[props_id as int] == properties@);
                        }
                    }
                    assert(lists_under(idx, new_lists, k) =~= expected[k]);
                } else {
                    assert(lists_under(idx, new_lists, k) =~= lists_under(old_idx, new_lists, k));
                }
            }
            assert(self@ =~= expected);
            let h = old(self).synced@ + old(self).spec_pending();
            let h2 = self.synced@ + self.spec_pending();
            assert(h2 =~= h.push((key@, properties@)));
            assert(h2.drop_last() =~= h);
            assert(self@ == replay(h2));
            assert(self.spec_next_property_id() == total_len(h2));
            assert forall|i: int| 0 <= i < h2.len() implies #[trigger] h2[i].1 == with_ids(h2[i].1, total_len(h2.take(i)) as int) by {
                if i < h.len() {
                    assert(h2.take(i) =~= h.take(i));
                    assert(h[i] == h2[i]);
                } else {
                    assert(h2.take(i) =~= h);
                    lemma_with_ids_twice(old(properties)@, old(self).spec_next_property_id() as int);
                }
            }
        }
        res
    }

    /// With nothing pending, the contents are those of the synced puts.
    proof fn lemma_history(&self)
        requires
            self.wf(),
            self.spec_pending().len() == 0,
        ensures
            self@ == replay(self.spec_synced()),
            self.spec_next_property_id() == total_len(self.spec_synced()),
            consecutive_ids(self.spec_synced()),
    {
        assert(self.synced@ + self.spec_pending() =~= self.synced@);
    }

    /// A repository holding what the puts `puts` store, made in order on an
    /// empty repository, with nothing left to sync: what reopens a
    /// repository from the puts its syncs handed out. `None` where the
    /// property ids would run past `u64::MAX`.
    pub fn from_puts(puts: &Vec<(String, Vec<Property>)>) -> (res: Option<Self>)
        ensures
            ({
                let pv = puts@.map_values(|e: (String, Vec<Property>)| (e.0@, e.1@));
                &&& res is None <==> total_len(pv) > u64::MAX
                &&& res matches Some(r) ==> {
                    &&& r.wf()
                    &&& r@ == replay(relabel(pv))
                    &&& r.spec_synced() == relabel(pv)
                    &&& r.spec_pending().len() == 0
                    &&& r.spec_next_property_id() == total_len(pv)
                }
            }),
    {
        let ghost pv = puts@.map_values(|e: (String, Vec<Property>)| (e.0@, e.1@));
        let mut r = Self::new();
        let mut i: usize = 0;
        proof {
            assert(pv.take(0) =~= Seq::<(Seq<char>, Seq<Property>)>::empty());
            assert(relabel(pv).take(0) =~= r.spec_pending());
        }
        while i < puts.len()
            invariant
                r.wf(),
                0 <= i <= puts@.len(),
                pv == puts@.map_values(|e: (String, Vec<Property>)| (e.0@, e.1@)),
                r.spec_synced().len() == 0,
                r.spec_pending() == relabel(pv).take(i as int),
                r.spec_next_property_id() == total_len(pv.take(i as int)),
            decreases puts@.len() - i,
        {
            let entry = &puts[i];
            let mut props: Vec<Property> = Vec::new();
            let mut j: usize = 0;
            while j < entry.1.len()
                invariant
                    0 <= j <= entry.1@.len(),
                    props@ == entry.1@.take(j as int),
                decreases entry.1@.len() - j,
            {
                props.push(copy_property(&entry.1[j]));
                j = j + 1;
                assert(entry.1@.take(j as int) =~= entry.1@.take(j - 1).push(entry.1@[j - 1]));
            }
            assert(entry.1@.take(entry.1@.len() as int) =~= entry.1@);
            assert(pv[i as int] == (entry.0@, entry.1@));
            assert(pv.take(i + 1).drop_last() =~= pv.take(i as int));
            let ghost before = r;
            match r.put(entry.0.as_str(), &mut props) {
                None => {
                    proof {
                        lemma_total_len_prefix(pv, i + 1);
                    }
                    return None;
                },
                Some(()) => {},
            }
            proof {
                assert(relabel(pv).take(i + 1) =~= relabel(pv).take(i as int).push(relabel(pv)[i as int]));
            }
            i = i + 1;
        }
        let _ = r.sync();
        proof {
            assert(pv.take(pv.len() as int) =~= pv);
            assert(relabel(pv).take(pv.len() as int) =~= relabel(pv));
            assert(r.spec_synced() =~= relabel(pv));
            r.lemma_history();
        }
        Some(r)
    }

    /// The lists of properties stored under `key`, in the order they were
    /// stored, or `None` where nothing is stored under it.
    pub fn get(&mut self, key: &str) -> (res: Option<Vec<Vec<Property>>>)
        requires
            old(self).wf(),
        ensures
            *final(self) == *old(self),
            old(self)@.contains_key(key@) ==> res is Some && res.unwrap()@.map_values(|l: Vec<Property>| l@) == old(self)@[key@],
            !old(self)@.contains_key(key@) ==> res is None,
    {
        let props_ids = match self.properties_index.search(key) {
            Some(ids) => ids,
            None => {
                return None;
            },
        };
        let ghost lists = self.properties_repository@;
        let mut res: Vec<Vec<Property>> = Vec::new();
        let mut i: usize = 0;
        while i < props_ids.len()
            invariant
                self.wf(),
                *self == *old(self),
                lists == self.properties_repository@,
                self.properties_index@.contains_key(key@),
                props_ids@ == self.properties_index@[key@],
                0 <= i <= props_ids@.len(),
                res@.len() == i,
                forall|k: int| 0 <= k < i ==> #[trigger] res@[k]@ == lists[props_ids@[k] as int],
            decreases props_ids@.len() - i,
        {
            let pid = props_ids[i];
            assert(self.properties_index@[key@][i as int] < lists.len());
            let props = match self.properties_repository.retrieve_list(pid) {
                Some(p) => p,
                None => {
                    return None;
                },
            };
            res.push(props);
            i = i + 1;
        }
        assert(res@.map_values(|l: Vec<Property>| l@) =~= lists_under(self.properties_index@, lists, key@));
        Some(res)
    }

    /// Removes every list and key; property ids start again from 0, and
    /// nothing is left to sync.
    pub fn clear(&mut self)
        ensures
            final(self).wf(),
            final(self)@ == Map::<Seq<char>, Seq<Seq<Property>>>::empty(),
            final(self).spec_next_property_id() == 0,
            final(self).spec_pending().len() == 0,
            final(self).spec_synced().len() == 0,
    {
        self.properties_repository.clear();
        self.properties_index.clear();
        self.pending = Vec::new();
        self.synced = Ghost(Seq::empty());
        assert(self@ =~= Map::<Seq<char>, Seq<Seq<Property>>>::empty());
        assert(self.synced@ + self.spec_pending() =~= Seq::<(Seq<char>, Seq<Property>)>::empty());
    }

    /// The puts made since the last sync, in order, each key with a copy of
    /// the list stored under it. Nothing is marked as written out;
    /// [`KeyPropertiesRepository::mark_synced`] does that once they are.
    pub fn pending_puts(&self) -> (puts: Vec<(String, Vec<Property>)>)
        requires
            self.wf(),
        ensures
            puts@.map_values(|e: (String, Vec<Property>)| (e.0@, e.1@)) == self.spec_pending(),
    {
        let mut puts: Vec<(String, Vec<Property>)> = Vec::new();
        let mut i: usize = 0;
        while i < self.pending.len()
            invariant
                self.wf(),
                0 <= i <= self.pending@.len(),
                puts@.len() == i,
                forall|j: int| 0 <= j < i ==> (#[trigger] puts@[j]).0@ == self.spec_pending()[j].0 && puts@[j].1@
                    == self.spec_pending()[j].1,
            decreases self.pending@.len() - i,
        {
            let entry = &self.pending[i];
            let list = match self.properties_repository.retrieve_list(entry.1) {
                Some(l) => l,
                None => Vec::new(),
            };
            puts.push((entry.0.clone(), list));
            i = i + 1;
        }
        assert(puts@.map_values(|e: (String, Vec<Property>)| (e.0@, e.1@)) =~= self.spec_pending());
        puts
    }

    /// Marks the puts made since the last sync as written out.
    pub fn mark_synced(&mut self)
        requires
            old(self).wf(),
        ensures
            final(self).wf(),
            final(self)@ == old(self)@,
            final(self).spec_next_property_id() == old(self).spec_next_property_id(),
            final(self).spec_pending().len() == 0,
            final(self).spec_synced() == old(self).spec_synced() + old(self).spec_pending(),
    {
        self.synced = Ghost(self.synced@ + self.spec_pending());
        self.pending = Vec::new();
        assert(self.synced@ + self.spec_pending() =~= old(self).synced@ + old(self).spec_pending());
    }

    /// Hands out the puts made since the last sync, in order, each key with
    /// a copy of the list stored under it, and marks them as written out.
    pub fn sync(&mut self) -> (puts: Vec<(String, Vec<Property>)>)
        requires
            old(self).wf(),
        ensures
            final(self).wf(),
            final(self)@ == old(self)@,
            final(self).spec_next_property_id() == old(self).spec_next_property_id(),
            final(self).spec_pending().len() == 0,
            final(self).spec_synced() == old(self).spec_synced() + old(self).spec_pending(),
            puts@.map_values(|e: (String, Vec<Property>)| (e.0@, e.1@)) == old(self).spec_pending(),
    {
        let puts = self.pending_puts();
        self.mark_synced();
        puts
    }
}

/// Reopening a repository from what its syncs handed out: once everything
/// is synced, the puts handed out since it was made or cleared, made again
/// in order on an empty repository, fit the property ids and store exactly
/// what it holds (see [`KeyPropertiesRepository::from_puts`]).
pub proof fn lemma_reopen_after_sync(r: &KeyPropertiesRepository)
    requires
        r.wf(),
        r.spec_pending().len() == 0,
    ensures
        consecutive_ids(r.spec_synced()),
        relabel(r.spec_synced()) == r.spec_synced(),
        total_len(r.spec_synced()) <= u64::MAX,
        replay(relabel(r.spec_synced())) == r@,
{
    r.lemma_history();
    lemma_relabel_consecutive(r.spec_synced());
}

/// What a read gives back of a write: after `put(key, properties)`, `get(key)`
/// gives the lists stored under `key` before, then `properties` with their
/// new ids; the lists under every other key are unchanged.
pub proof fn lemma_put_then_get(
    before: Map<Seq<char>, Seq<Seq<Property>>>,
    key: Seq<char>,
    stored: Seq<Property>,
    other: Seq<char>,
)
    requires
        other != key,
    ensures
        ({
            let prev = if before.contains_key(key) { before[key] } else { Seq::empty() };
            let after = before.insert(key, prev.push(stored));
            &&& after.contains_key(key)
            &&& after[key].len() == prev.len() + 1
            &&& after[key].last() == stored
            &&& after[key].take(prev.len() as int) == prev
            &&& after.contains_key(other) == before.contains_key(other)
            &&& before.contains_key(other) ==> after[other] == before[other]
        }),
{
    let prev = if before.contains_key(key) { before[key] } else { Seq::empty() };
    assert(prev.push(stored).take(prev.len() as int) =~= prev);
}

} // verus!
