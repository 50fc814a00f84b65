//! The cache of chunks by their identifiers, from which references to chunks are filled in.
//!
//! The cache is bounded: when it holds more bytes than its budget, the chunks that entered first
//! leave first.
use std::collections::HashMap;
use std::collections::VecDeque;
use vstd::prelude::*;

verus! {

/// The bytes that the cache may hold.
pub const BLIND_CACHE_BUDGET: u64 = 67_108_864;

/// A counter that wraps around, `k` further.
pub open spec fn bumped(n: u64, k: int) -> u64 {
    ((n + k) % 0x1_0000_0000_0000_0000) as u64
}

/// The number whose bytes, most significant first, are those of `s`.
pub open spec fn id_number(s: Seq<u8>) -> nat
    decreases s.len(),
{
    if s.len() == 0 {
        0
    } else {
        id_number(s.drop_last()) * 256 + s.last() as nat
    }
}

/// The powers of 256.
spec fn pow256(n: nat) -> nat
    decreases n,
{
    if n == 0 {
        1
    } else {
        pow256((n - 1) as nat) * 256
    }
}

/// A number of `n` bytes is below the `n`th power of 256.
proof fn lemma_id_number_bound(s: Seq<u8>)
    ensures
        id_number(s) < pow256(s.len()),
    decreases s.len(),
{
    if s.len() > 0 {
        lemma_id_number_bound(s.drop_last());
    }
}

/// Two identifiers of one length have different numbers unless they are equal.
pub proof fn law_id_numbers_are_unique(a: Seq<u8>, b: Seq<u8>)
    requires
        a.len() == b.len(),
        id_number(a) == id_number(b),
    ensures
        a == b,
    decreases a.len(),
{
    if a.len() > 0 {
        law_id_numbers_are_unique(a.drop_last(), b.drop_last());
        assert(a =~= a.drop_last().push(a.last()));
        assert(b =~= b.drop_last().push(b.last()));
    } else {
        assert(a =~= b);
    }
}

/// The number of an identifier.
pub fn id_key(id: &[u8; 16]) -> (r: u128)
    ensures
        r == id_number(id@),
{
    let mut key: u128 = 0;
    let mut i: usize = 0;
    assert(id@.take(0) =~= Seq::<u8>::empty());
    while i < 16
        invariant
            i <= 16,
            key == id_number(id@.take(i as int)),
        decreases 16 - i,
    {
        proof {
            lemma_id_number_bound(id@.take(i as int));
            reveal_with_fuel(pow256, 17);
            assert(id@.take(i + 1).drop_last() =~= id@.take(i as int));
        }
        key = key * 256 + id[i] as u128;
        i = i + 1;
    }
    assert(id@.take(16) =~= id@);
    key
}

/// The bytes of all chunks in `entries`.
pub open spec fn total_bytes(entries: Seq<(u128, Seq<u8>)>) -> nat
    decreases entries.len(),
{
    if entries.len() == 0 {
        0
    } else {
        total_bytes(entries.drop_last()) + entries.last().1.len()
    }
}

/// Replacing a chunk changes the total by the difference of their lengths.
proof fn lemma_total_update(entries: Seq<(u128, Seq<u8>)>, i: int, e: (u128, Seq<u8>))
    requires
        0 <= i < entries.len(),
    ensures
        total_bytes(entries.update(i, e)) == total_bytes(entries) - entries[i].1.len() + e.1.len(),
    decreases entries.len(),
{
    let u = entries.update(i, e);
    if i == entries.len() - 1 {
        assert(u.drop_last() =~= entries.drop_last());
    } else {
        lemma_total_update(entries.drop_last(), i, e);
        assert(u.drop_last() =~= entries.drop_last().update(i, e));
    }
}

/// Leaving out the first chunk takes its length off the total.
proof fn lemma_total_drop_first(entries: Seq<(u128, Seq<u8>)>)
    requires
        entries.len() > 0,
    ensures
        total_bytes(entries.drop_first()) == total_bytes(entries) - entries[0].1.len(),
    decreases entries.len(),
{
    let d = entries.drop_first();
    if entries.len() == 1 {
        assert(entries.drop_last() =~= Seq::<(u128, Seq<u8>)>::empty());
        assert(d =~= Seq::<(u128, Seq<u8>)>::empty());
    } else {
        lemma_total_drop_first(entries.drop_last());
        assert(d.drop_last() =~= entries.drop_last().drop_first());
    }
}

/// A chunk with number `id` is among the entries.
pub open spec fn has_entry(entries: Seq<(u128, Seq<u8>)>, id: u128) -> bool {
    exists|i: int| 0 <= i < entries.len() && (#[trigger] entries[i]).0 == id
}

/// The chunk with number `id`.
pub open spec fn entry_data(entries: Seq<(u128, Seq<u8>)>, id: u128) -> Option<Seq<u8>> {
    if has_entry(entries, id) {
        let i = choose|i: int| 0 <= i < entries.len() && (#[trigger] entries[i]).0 == id;
        Some(entries[i].1)
    } else {
        None
    }
}

/// `entries` with a chunk put in: in its former place if its number is there, at the end if not.
pub open spec fn put(entries: Seq<(u128, Seq<u8>)>, id: u128, data: Seq<u8>) -> Seq<
    (u128, Seq<u8>),
> {
    if has_entry(entries, id) {
        let i = choose|i: int| 0 <= i < entries.len() && (#[trigger] entries[i]).0 == id;
        entries.update(i, (id, data))
    } else {
        entries.push((id, data))
    }
}

/// `entries` without the first ones, until what is left is within the budget.
pub open spec fn within_budget(entries: Seq<(u128, Seq<u8>)>, budget: nat) -> Seq<(u128, Seq<u8>)>
    decreases entries.len(),
{
    if entries.len() > 0 && total_bytes(entries) > budget {
        within_budget(entries.drop_first(), budget)
    } else {
        entries
    }
}

/// The cache: chunks by number, the order in which the numbers came, the bytes held, and how many
/// chunks had to leave.
#[derive(Debug)]
pub struct BlindCache {
    pub map: HashMap<u128, Vec<u8>>,
    pub order: VecDeque<u128>,
    pub bytes: u64,
    pub evicted: u64,
}

/// The chunks of a map in the given order.
pub open spec fn entries_in(order: Seq<u128>, map: Map<u128, Vec<u8>>) -> Seq<(u128, Seq<u8>)> {
    Seq::new(order.len(), |i: int| (order[i], map[order[i]]@))
}

/// The order names every chunk of the map once, and nothing else.
pub open spec fn is_order_of(order: Seq<u128>, map: Map<u128, Vec<u8>>) -> bool {
    &&& forall|i: int, j: int| 0 <= i < j < order.len() ==> order[i] != order[j]
    &&& forall|i: int| 0 <= i < order.len() ==> map.contains_key(#[trigger] order[i])
    &&& forall|k: u128| #[trigger] map.contains_key(k) ==> order.contains(k)
}

impl View for BlindCache {
    type V = Seq<(u128, Seq<u8>)>;

    open spec fn view(&self) -> Seq<(u128, Seq<u8>)> {
        entries_in(self.order@, self.map@)
    }
}

impl BlindCache {
    /// The order fits the map, the bytes are counted right, and they are within the budget.
    pub open spec fn wf(self) -> bool {
        &&& is_order_of(self.order@, self.map@)
        &&& self.bytes == total_bytes(self@)
        &&& self.bytes <= BLIND_CACHE_BUDGET
    }

    /// An empty cache.
    pub fn new() -> (r: Self)
        ensures
            r.wf(),
            r@ == Seq::<(u128, Seq<u8>)>::empty(),
            r.evicted == 0,
    {
        let r = BlindCache { map: HashMap::new(), order: VecDeque::new(), bytes: 0, evicted: 0 };
        assert(r@ =~= Seq::<(u128, Seq<u8>)>::empty());
        r
    }

    /// The chunk with the given identifier is in the cache.
    pub fn has_blind(&self, blind_id: &[u8; 16]) -> (r: bool)
        requires
            self.wf(),
        ensures
            r == has_entry(self@, id_number(blind_id@) as u128),
    {
        let key: u128 = id_key(blind_id);
        let r: bool = self.map.contains_key(&key);
        proof {
            lemma_has_entry(self.order@, self.map@, key);
        }
        r
    }

    /// The chunk with the given identifier.
    pub fn get(&self, blind_id: &[u8; 16]) -> (r: Option<Vec<u8>>)
        requires
            self.wf(),
        ensures
            crate::endian::bytes_view(r) == entry_data(self@, id_number(blind_id@) as u128),
            r matches Some(data) ==> data@.len() <= BLIND_CACHE_BUDGET,
    {
        let key: u128 = id_key(blind_id);
        proof {
            lemma_has_entry(self.order@, self.map@, key);
        }
        match self.map.get(&key) {
            Some(data) => {
                let copy: Vec<u8> = data.clone();
                proof {
                    assert(copy@ =~= data@);
                    let i = choose|i: int|
                        0 <= i < self@.len() && (#[trigger] self@[i]).0 == key;
                    assert(self@[i].1 == data@);
                    lemma_entry_fits(self@, i);
                }
                Some(copy)
            },
            None => None,
        }
    }

    /// Puts a chunk in. Then the chunks that came first leave, until the budget is kept.
    pub fn cache_insert(&mut self, blind_id: &[u8; 16], data: Vec<u8>)
        requires
            old(self).wf(),
        ensures
            final(self).wf(),
            ({
                let full = put(old(self)@, id_number(blind_id@) as u128, data@);
                &&& final(self)@ == within_budget(full, BLIND_CACHE_BUDGET as nat)
                &&& final(self).evicted == bumped(
                    old(self).evicted,
                    full.len() - final(self)@.len(),
                )
            }),
    {
        let key: u128 = id_key(blind_id);
        let len: u128 = data.len() as u128;
        let ghost old_map = self.map@;
        let ghost old_order = self.order@;
        let ghost before = self@;
        let ghost bytes_of_data = data@;
        let ghost full = put(before, key, data@);
        proof {
            lemma_has_entry(old_order, old_map, key);
        }
        let mut total: u128 = self.bytes as u128;
        match self.map.insert(key, data) {
            Some(replaced) => {
                proof {
                    let i = choose|i: int| 0 <= i < before.len() && (#[trigger] before[i]).0 == key;
                    assert(before[i].1 == replaced@);
                    lemma_entry_fits(before, i);
                    lemma_total_update(before, i, (key, bytes_of_data));
                    assert(entries_in(self.order@, self.map@) =~= full);
                    assert(is_order_of(self.order@, self.map@));
                }
                total = total - replaced.len() as u128;
            },
            None => {
                self.order.push_back(key);
                proof {
                    assert(!old_order.contains(key));
                    assert(full == before.push((key, bytes_of_data)));
                    assert(full.drop_last() =~= before);
                    assert(entries_in(self.order@, self.map@) =~= full);
                    lemma_order_push(old_order, old_map, key, self.map@);
                }
            },
        }
        total = total + len;
        let ghost evicted_before = self.evicted;
        let mut gone: u64 = 0;
        while total > BLIND_CACHE_BUDGET as u128
            invariant
                is_order_of(self.order@, self.map@),
                total == total_bytes(self@),
                gone as int == (full.len() - self@.len()) % 0x1_0000_0000_0000_0000,
                self.evicted == evicted_before,
                self@.len() <= full.len(),
                within_budget(self@, BLIND_CACHE_BUDGET as nat) == within_budget(
                    full,
                    BLIND_CACHE_BUDGET as nat,
                ),
            decreases self@.len(),
        {
            let ghost order0 = self.order@;
            let ghost map0 = self.map@;
            let ghost entries0 = self@;
            proof {
                lemma_total_drop_first_nonempty(entries0);
            }
            if let Some(oldest) = self.order.pop_front() {
                assert(map0.contains_key(order0[0]));
                if let Some(data) = self.map.remove(&oldest) {
                    proof {
                        lemma_order_pop(order0, map0);
                        assert(self@ =~= entries0.drop_first());
                        assert(entries0[0].1 == data@);
                    }
                    total = total - data.len() as u128;
                    gone = gone.wrapping_add(1);
                }
            }
        }
        self.bytes = total as u64;
        self.evicted = self.evicted.wrapping_add(gone);
    }
}

/// A number is in the entries exactly if it is in the map.
proof fn lemma_has_entry(order: Seq<u128>, map: Map<u128, Vec<u8>>, key: u128)
    requires
        is_order_of(order, map),
    ensures
        map.contains_key(key) <==> has_entry(entries_in(order, map), key),
        map.contains_key(key) <==> order.contains(key),
{
    let entries = entries_in(order, map);
    if map.contains_key(key) {
        let i = choose|i: int| 0 <= i < order.len() && order[i] == key;
        assert(entries[i].0 == key);
    }
    if has_entry(entries, key) {
        let i = choose|i: int| 0 <= i < entries.len() && (#[trigger] entries[i]).0 == key;
        assert(order[i] == key);
    }
}

/// A new number at the end keeps the order right.
proof fn lemma_order_push(
    order: Seq<u128>,
    map: Map<u128, Vec<u8>>,
    key: u128,
    new_map: Map<u128, Vec<u8>>,
)
    requires
        is_order_of(order, map),
        !map.contains_key(key),
        new_map.dom() == map.dom().insert(key),
    ensures
        is_order_of(order.push(key), new_map),
{
    let pushed = order.push(key);
    assert forall|i: int| 0 <= i < pushed.len() implies new_map.contains_key(
        #[trigger] pushed[i],
    ) by {
        if i < order.len() {
            assert(map.contains_key(order[i]));
        }
    }
    assert forall|k: u128| #[trigger] new_map.contains_key(k) implies pushed.contains(k) by {
        if k == key {
            assert(pushed[order.len() as int] == key);
        } else {
            assert(map.contains_key(k));
            let i = choose|i: int| 0 <= i < order.len() && order[i] == k;
            assert(pushed[i] == k);
        }
    }
    assert forall|i: int, j: int| 0 <= i < j < pushed.len() implies pushed[i] != pushed[j] by {
        if j == order.len() {
            assert(map.contains_key(order[i]));
        }
    }
}

/// Taking the first number out of order and map keeps the order right.
proof fn lemma_order_pop(order: Seq<u128>, map: Map<u128, Vec<u8>>)
    requires
        is_order_of(order, map),
        order.len() > 0,
    ensures
        is_order_of(order.subrange(1, order.len() as int), map.remove(order[0])),
{
    let rest = order.subrange(1, order.len() as int);
    let m = map.remove(order[0]);
    assert forall|k: u128| #[trigger] m.contains_key(k) implies rest.contains(k) by {
        assert(map.contains_key(k));
        let i = choose|i: int| 0 <= i < order.len() && order[i] == k;
        assert(rest[i - 1] == k);
    }
    assert forall|i: int| 0 <= i < rest.len() implies m.contains_key(#[trigger] rest[i]) by {
        assert(map.contains_key(order[i + 1]));
        assert(order[0] != order[i + 1]);
    }
}

/// A chunk is no longer than all chunks together.
proof fn lemma_entry_fits(entries: Seq<(u128, Seq<u8>)>, i: int)
    requires
        0 <= i < entries.len(),
    ensures
        entries[i].1.len() <= total_bytes(entries),
    decreases entries.len(),
{
    if i < entries.len() - 1 {
        lemma_entry_fits(entries.drop_last(), i);
    }
}

/// Chunks that hold any bytes have a first one, and leaving it out takes its length off the total.
proof fn lemma_total_drop_first_nonempty(entries: Seq<(u128, Seq<u8>)>)
    requires
        total_bytes(entries) > 0,
    ensures
        entries.len() > 0,
        total_bytes(entries.drop_first()) == total_bytes(entries) - entries[0].1.len(),
{
    lemma_total_drop_first(entries);
}

/// The cache stays within its budget, and only the chunks that came first leave.
pub proof fn law_cache_is_bounded(entries: Seq<(u128, Seq<u8>)>, budget: nat)
    ensures
        total_bytes(within_budget(entries, budget)) <= budget,
        within_budget(entries, budget).len() <= entries.len(),
        within_budget(entries, budget) == entries.skip(
            entries.len() - within_budget(entries, budget).len(),
        ),
    decreases entries.len(),
{
    if entries.len() > 0 && total_bytes(entries) > budget {
        let d = entries.drop_first();
        law_cache_is_bounded(d, budget);
        let w = within_budget(d, budget);
        assert(w =~= entries.skip(entries.len() - w.len()));
    } else {
        assert(entries.skip(0) =~= entries);
    }
}

/// A chunk that was just put in is found again, as long as it fits into the budget.
pub proof fn law_cached_chunk_is_found(
    entries: Seq<(u128, Seq<u8>)>,
    id: u128,
    data: Seq<u8>,
    budget: nat,
)
    requires
        !has_entry(entries, id),
        data.len() <= budget,
    ensures
        entry_data(within_budget(put(entries, id, data), budget), id) == Some(data),
{
    let full = put(entries, id, data);
    law_cache_is_bounded(full, budget);
    let w = within_budget(full, budget);
    if w.len() == 0 {
        lemma_kept_tail(full, budget);
    }
    assert(w.last() == full.last());
    assert(w[w.len() - 1].0 == id);
    let i = choose|i: int| 0 <= i < w.len() && (#[trigger] w[i]).0 == id;
    let off = full.len() - w.len();
    assert(w[i] == full[off + i]);
    if off + i < entries.len() {
        assert(entries[off + i].0 == id);
    }
}

/// What is within the budget at the end does not leave.
proof fn lemma_kept_tail(entries: Seq<(u128, Seq<u8>)>, budget: nat)
    requires
        entries.len() > 0,
        entries.last().1.len() <= budget,
    ensures
        within_budget(entries, budget).len() > 0,
    decreases entries.len(),
{
    if total_bytes(entries) > budget {
        if entries.len() == 1 {
            assert(total_bytes(entries.drop_last()) == 0);
        } else {
            assert(entries.drop_first().last() == entries.last());
            lemma_kept_tail(entries.drop_first(), budget);
        }
    }
}

} // verus!
