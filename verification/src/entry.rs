//! Log entries and the byte measures the storage layer works with: the
//! payload bytes an entry occupies while cached, its serialized size, and the
//! byte-cap rule that decides how many entries of a run fit a read budget.

use vstd::prelude::*;

verus! {

use vstd::pervasive::cloned;

/// Fixed serialized overhead per entry beyond its two payloads.
pub const ENTRY_HEADER_BYTES: u64 = 4;

/// One record of the replicated log. Entries of a run carry strictly
/// consecutive `index` values.
#[derive(Debug, PartialEq)]
pub struct Entry {
    pub index: u64,
    pub term: u64,
    pub data: Vec<u8>,
    pub context: Vec<u8>,
}

/// Mathematical image of an [`Entry`]: both payloads as byte sequences.
pub struct EntryView {
    pub index: u64,
    pub term: u64,
    pub data: Seq<u8>,
    pub context: Seq<u8>,
}

impl View for Entry {
    type V = EntryView;

    open spec fn view(&self) -> EntryView {
        EntryView { index: self.index, term: self.term, data: self.data@, context: self.context@ }
    }
}

impl EntryView {
    /// Payload bytes the cache accounts for this entry.
    pub open spec fn payload_bytes(self) -> int {
        self.data.len() + self.context.len() as int
    }

    /// Serialized size in bytes: a fixed header plus both payloads.
    pub open spec fn serialized_size(self) -> int {
        ENTRY_HEADER_BYTES + self.data.len() + self.context.len() as int
    }
}

impl Entry {
    /// An entry with the given position and empty payloads.
    pub fn new(index: u64, term: u64) -> (e: Entry)
        ensures
            e@ == (EntryView { index, term, data: Seq::<u8>::empty(), context: Seq::<u8>::empty() }),
    {
        let e = Entry { index, term, data: Vec::new(), context: Vec::new() };
        proof {
            assert(e@.data =~= Seq::<u8>::empty());
            assert(e@.context =~= Seq::<u8>::empty());
        }
        e
    }

    /// Payload bytes currently held for this entry.
    pub fn payload_size(&self) -> (n: u64)
        requires
            self@.payload_bytes() <= u64::MAX,
        ensures
            n == self@.payload_bytes(),
    {
        self.data.len() as u64 + self.context.len() as u64
    }

    /// Serialized size in bytes, the measure used by read byte caps.
    pub fn compute_size(&self) -> (n: u64)
        requires
            self@.serialized_size() <= u64::MAX,
        ensures
            n == self@.serialized_size(),
    {
        ENTRY_HEADER_BYTES + self.data.len() as u64 + self.context.len() as u64
    }
}

fn clone_bytes(v: &Vec<u8>) -> (r: Vec<u8>)
    ensures
        r@ == v@,
{
    let r = v.clone();
    proof {
        assert forall|i: int| 0 <= i < v@.len() implies r@[i] == v@[i] by {
            assert(cloned::<u8>(v@[i], r@[i]));
        }
        assert(r@ =~= v@);
    }
    r
}

impl Clone for Entry {
    fn clone(&self) -> (r: Entry)
        ensures
            r@ == self@,
    {
        Entry {
            index: self.index,
            term: self.term,
            data: clone_bytes(&self.data),
            context: clone_bytes(&self.context),
        }
    }
}

/// The views of a run of entries.
pub open spec fn views_of(s: Seq<Entry>) -> Seq<EntryView> {
    s.map_values(|e: Entry| e@)
}

/// `s` is a gap-free run whose first index is `first`.
pub open spec fn run_from(s: Seq<EntryView>, first: u64) -> bool {
    forall|i: int| 0 <= i < s.len() ==> #[trigger] s[i].index == first + i
}

/// `s` is a gap-free run of consecutive indexes.
pub open spec fn is_run(s: Seq<EntryView>) -> bool {
    s.len() == 0 || run_from(s, s[0].index)
}

/// The run's last index stays below `u64::MAX`, so one past it is representable.
pub open spec fn run_bounded(s: Seq<EntryView>) -> bool {
    s.len() == 0 || s[0].index + s.len() <= u64::MAX
}

/// Total payload bytes of a run.
pub open spec fn payload_total(s: Seq<EntryView>) -> int
    decreases s.len(),
{
    if s.len() == 0 {
        0
    } else {
        payload_total(s.drop_last()) + s.last().payload_bytes()
    }
}

/// Total serialized bytes of a run.
pub open spec fn size_total(s: Seq<EntryView>) -> int
    decreases s.len(),
{
    if s.len() == 0 {
        0
    } else {
        size_total(s.drop_last()) + s.last().serialized_size()
    }
}

pub proof fn lemma_payload_total_nonneg(s: Seq<EntryView>)
    ensures
        payload_total(s) >= 0,
    decreases s.len(),
{
    if s.len() > 0 {
        lemma_payload_total_nonneg(s.drop_last());
    }
}

pub proof fn lemma_size_total_nonneg(s: Seq<EntryView>)
    ensures
        size_total(s) >= 0,
    decreases s.len(),
{
    if s.len() > 0 {
        lemma_size_total_nonneg(s.drop_last());
    }
}

/// Splitting a run splits its payload total.
pub proof fn lemma_payload_total_split(s: Seq<EntryView>, k: int)
    requires
        0 <= k <= s.len(),
    ensures
        payload_total(s) == payload_total(s.take(k)) + payload_total(s.skip(k)),
    decreases s.len(),
{
    if k == s.len() {
        assert(s.take(k) =~= s);
        assert(s.skip(k) =~= Seq::<EntryView>::empty());
    } else {
        let d = s.drop_last();
        lemma_payload_total_split(d, k);
        assert(d.take(k) =~= s.take(k));
        assert(s.skip(k).drop_last() =~= d.skip(k));
        assert(s.skip(k).last() == s.last());
    }
}

/// Splitting a run splits its serialized total.
pub proof fn lemma_size_total_split(s: Seq<EntryView>, k: int)
    requires
        0 <= k <= s.len(),
    ensures
        size_total(s) == size_total(s.take(k)) + size_total(s.skip(k)),
    decreases s.len(),
{
    if k == s.len() {
        assert(s.take(k) =~= s);
        assert(s.skip(k) =~= Seq::<EntryView>::empty());
    } else {
        let d = s.drop_last();
        lemma_size_total_split(d, k);
        assert(d.take(k) =~= s.take(k));
        assert(s.skip(k).drop_last() =~= d.skip(k));
        assert(s.skip(k).last() == s.last());
    }
}

/// A single entry's payload never exceeds the run's total.
pub proof fn lemma_payload_total_elem(s: Seq<EntryView>, i: int)
    requires
        0 <= i < s.len(),
    ensures
        0 <= s[i].payload_bytes() <= payload_total(s),
{
    lemma_payload_total_split(s, i);
    lemma_payload_total_first(s.skip(i));
    assert(s.skip(i)[0] == s[i]);
    lemma_payload_total_nonneg(s.take(i));
    lemma_payload_total_nonneg(s.skip(i).drop_first());
}

/// A single entry's serialized size never exceeds the run's total.
pub proof fn lemma_size_total_elem(s: Seq<EntryView>, i: int)
    requires
        0 <= i < s.len(),
    ensures
        0 <= s[i].serialized_size() <= size_total(s),
{
    lemma_size_total_split(s, i);
    lemma_size_total_first(s.skip(i));
    assert(s.skip(i)[0] == s[i]);
    lemma_size_total_nonneg(s.take(i));
    lemma_size_total_nonneg(s.skip(i).drop_first());
}

/// Peeling the first entry off a run peels its serialized size off the total.
pub proof fn lemma_size_total_first(s: Seq<EntryView>)
    requires
        s.len() > 0,
    ensures
        size_total(s) == s[0].serialized_size() + size_total(s.drop_first()),
{
    lemma_size_total_split(s, 1);
    assert(s.skip(1) =~= s.drop_first());
    assert(s.take(1) =~= seq![s[0]]);
    assert(seq![s[0]].drop_last() =~= Seq::<EntryView>::empty());
    assert(size_total(seq![s[0]]) == size_total(Seq::<EntryView>::empty())
        + s[0].serialized_size());
    assert(size_total(Seq::<EntryView>::empty()) == 0);
}

/// Peeling the first entry off a run peels its payload off the total.
pub proof fn lemma_payload_total_first(s: Seq<EntryView>)
    requires
        s.len() > 0,
    ensures
        payload_total(s) == s[0].payload_bytes() + payload_total(s.drop_first()),
{
    lemma_payload_total_split(s, 1);
    assert(s.skip(1) =~= s.drop_first());
    assert(s.take(1) =~= seq![s[0]]);
    assert(seq![s[0]].drop_last() =~= Seq::<EntryView>::empty());
    assert(payload_total(seq![s[0]]) == payload_total(Seq::<EntryView>::empty())
        + s[0].payload_bytes());
    assert(payload_total(Seq::<EntryView>::empty()) == 0);
}

/// The payload of a middle slice is at most the run's total.
pub proof fn lemma_payload_total_subrange(s: Seq<EntryView>, a: int, b: int)
    requires
        0 <= a <= b <= s.len(),
    ensures
        0 <= payload_total(s.subrange(a, b)) <= payload_total(s),
{
    lemma_payload_total_split(s, a);
    lemma_payload_total_split(s.skip(a), b - a);
    assert(s.skip(a).take(b - a) =~= s.subrange(a, b));
    lemma_payload_total_nonneg(s.take(a));
    lemma_payload_total_nonneg(s.skip(a).skip(b - a));
    lemma_payload_total_nonneg(s.subrange(a, b));
}

/// Extending a slice by one entry adds that entry's payload.
pub proof fn lemma_payload_total_snoc(s: Seq<EntryView>, a: int, i: int)
    requires
        0 <= a <= i < s.len(),
    ensures
        payload_total(s.subrange(a, i + 1)) == payload_total(s.subrange(a, i))
            + s[i].payload_bytes(),
{
    assert(s.subrange(a, i + 1).drop_last() =~= s.subrange(a, i));
    assert(s.subrange(a, i + 1).last() == s[i]);
}

/// Concatenation adds payload totals.
pub proof fn lemma_payload_total_concat(a: Seq<EntryView>, b: Seq<EntryView>)
    ensures
        payload_total(a + b) == payload_total(a) + payload_total(b),
{
    lemma_payload_total_split(a + b, a.len() as int);
    assert((a + b).take(a.len() as int) =~= a);
    assert((a + b).skip(a.len() as int) =~= b);
}

/// How many entries of `s` a reader takes when `already` bytes of a `max`
/// byte budget are spent: the entry contributing the first bytes is always
/// taken, every later entry only while the running total stays within `max`.
pub open spec fn cap_take(s: Seq<EntryView>, already: int, max: int) -> int
    decreases s.len(),
{
    if s.len() == 0 {
        0
    } else if already == 0 {
        if s[0].serialized_size() <= max {
            1 + cap_take(s.drop_first(), s[0].serialized_size(), max)
        } else {
            1
        }
    } else if already + s[0].serialized_size() <= max {
        1 + cap_take(s.drop_first(), already + s[0].serialized_size(), max)
    } else {
        0
    }
}

/// The entries kept when a run is trimmed to a byte budget.
pub open spec fn capped(s: Seq<EntryView>, already: int, max: int) -> Seq<EntryView> {
    s.take(cap_take(s, already, max))
}

pub proof fn lemma_cap_take_bounds(s: Seq<EntryView>, already: int, max: int)
    ensures
        0 <= cap_take(s, already, max) <= s.len(),
    decreases s.len(),
{
    if s.len() > 0 {
        lemma_cap_take_bounds(s.drop_first(), s[0].serialized_size(), max);
        lemma_cap_take_bounds(s.drop_first(), already + s[0].serialized_size(), max);
    }
}

/// A reader always takes at least the first entry when it starts fresh.
pub proof fn lemma_cap_take_first(s: Seq<EntryView>, max: int)
    requires
        s.len() > 0,
    ensures
        cap_take(s, 0, max) >= 1,
{
    lemma_cap_take_bounds(s.drop_first(), s[0].serialized_size(), max);
}

/// A budget that covers the whole run takes the whole run.
pub proof fn lemma_cap_take_full(s: Seq<EntryView>, already: int, max: int)
    requires
        already >= 0,
        already + size_total(s) <= max,
    ensures
        cap_take(s, already, max) == s.len(),
    decreases s.len(),
{
    if s.len() > 0 {
        lemma_size_total_first(s);
        lemma_size_total_nonneg(s.drop_first());
        if already == 0 {
            lemma_cap_take_full(s.drop_first(), s[0].serialized_size(), max);
        } else {
            lemma_cap_take_full(s.drop_first(), already + s[0].serialized_size(), max);
        }
    }
}

/// When the cap stops short of the run, the bytes through the next entry
/// exceed the budget.
pub proof fn lemma_cap_take_stop(s: Seq<EntryView>, already: int, max: int)
    requires
        already >= 0,
        cap_take(s, already, max) < s.len(),
    ensures
        already + size_total(s.take(cap_take(s, already, max) + 1)) > max,
    decreases s.len(),
{
    let k = cap_take(s, already, max);
    lemma_cap_take_bounds(s, already, max);
    lemma_size_total_split(s.take(k + 1), k);
    assert(s.take(k + 1).take(k) =~= s.take(k));
    assert(s.take(k + 1).skip(k) =~= seq![s[k]]);
    assert(seq![s[k]].drop_last() =~= Seq::<EntryView>::empty());
    if already == 0 {
        if s[0].serialized_size() <= max {
            let d = s.drop_first();
            lemma_cap_take_stop(d, s[0].serialized_size(), max);
            let kd = cap_take(d, s[0].serialized_size(), max);
            assert(k == 1 + kd);
            lemma_size_total_split(s.take(k + 1), 1);
            assert(s.take(k + 1).take(1).drop_last() =~= Seq::<EntryView>::empty());
            assert(s.take(k + 1).take(1).last() == s[0]);
            assert(s.take(k + 1).skip(1) =~= d.take(kd + 1));
        } else {
            assert(k == 1);
            lemma_size_total_split(s.take(2), 1);
            assert(s.take(2).take(1).drop_last() =~= Seq::<EntryView>::empty());
            assert(s.take(2).take(1).last() == s[0]);
            assert(s.take(2).skip(1) =~= seq![s[1]]);
            assert(seq![s[1]].drop_last() =~= Seq::<EntryView>::empty());
        }
    } else if already + s[0].serialized_size() <= max {
        let d = s.drop_first();
        lemma_cap_take_stop(d, already + s[0].serialized_size(), max);
        let kd = cap_take(d, already + s[0].serialized_size(), max);
        assert(k == 1 + kd);
        lemma_size_total_split(s.take(k + 1), 1);
        assert(s.take(k + 1).take(1).drop_last() =~= Seq::<EntryView>::empty());
        assert(s.take(k + 1).take(1).last() == s[0]);
        assert(s.take(k + 1).skip(1) =~= d.take(kd + 1));
    } else {
        assert(k == 0);
        assert(s.take(1).drop_last() =~= Seq::<EntryView>::empty());
        assert(s.take(1).last() == s[0]);
    }
}

/// Count how many entries of `v[from..to)` fit the byte budget, following the
/// cap rule of [`cap_take`].
pub fn cap_count(v: &Vec<Entry>, from: usize, to: usize, already: u64, max: u64) -> (k: usize)
    requires
        from <= to <= v@.len(),
        forall|i: int| from <= i < to ==> (#[trigger] v@[i]@.serialized_size()) <= u64::MAX,
    ensures
        k <= to - from,
        k == cap_take(views_of(v@).subrange(from as int, to as int), already as int, max as int),
{
    let ghost whole = views_of(v@).subrange(from as int, to as int);
    let mut k: usize = from;
    let mut acc: u128 = already as u128;
    proof {
        lemma_cap_take_bounds(whole, already as int, max as int);
        assert(views_of(v@).subrange(k as int, to as int) =~= whole);
        assert(size_total(whole.take(0)) == 0) by {
            assert(whole.take(0) =~= Seq::<EntryView>::empty());
        }
    }
    while k < to
        invariant
            from <= k <= to,
            to <= v@.len(),
            forall|i: int| from <= i < to ==> (#[trigger] v@[i]@.serialized_size()) <= u64::MAX,
            whole == views_of(v@).subrange(from as int, to as int),
            acc as int == already + size_total(whole.take(k - from)),
            k > from ==> acc > 0,
            already > 0 ==> acc > 0,
            acc <= u64::MAX as u128 + (k - from) as u128 * u64::MAX as u128,
            cap_take(whole, already as int, max as int) == (k - from) + cap_take(
                views_of(v@).subrange(k as int, to as int),
                acc as int,
                max as int,
            ),
        decreases to - k,
    {
        let ghost rest = views_of(v@).subrange(k as int, to as int);
        proof {
            assert(rest[0] == v@[k as int]@);
            assert(rest.drop_first() =~= views_of(v@).subrange(k as int + 1, to as int));
            assert(whole.take(k + 1 - from).drop_last() =~= whole.take(k - from));
            assert(whole.take(k + 1 - from).last() == v@[k as int]@);
        }
        let m: u64 = v[k].compute_size();
        let newacc: u128 = acc + m as u128;
        proof {
            assert(u64::MAX as u128 + (k + 1 - from) as u128 * u64::MAX as u128 <= u128::MAX)
                by (nonlinear_arith)
                requires
                    0 <= (k + 1 - from) as u128 <= u64::MAX as u128,
            ;
            assert(newacc <= u64::MAX as u128 + (k + 1 - from) as u128 * u64::MAX as u128)
                by (nonlinear_arith)
                requires
                    acc <= u64::MAX as u128 + (k - from) as u128 * u64::MAX as u128,
                    m as u128 <= u64::MAX as u128,
                    newacc == acc + m as u128,
                    k >= from,
            ;
        }
        if acc == 0 {
            k = k + 1;
            acc = newacc;
            if acc > max as u128 {
                proof {
                    assert(cap_take(rest, 0, max as int) == 1);
                    lemma_cap_take_bounds(whole, already as int, max as int);
                }
                return k - from;
            }
        } else if newacc <= max as u128 {
            k = k + 1;
            acc = newacc;
        } else {
            proof {
                assert(cap_take(rest, acc as int, max as int) == 0);
            }
            return k - from;
        }
    }
    proof {
        assert(views_of(v@).subrange(to as int, to as int) =~= Seq::<EntryView>::empty());
    }
    k - from
}

/// Trim `ents` to the byte budget `max_size`: the first entry always stays,
/// later entries only while the running serialized total stays within budget.
pub fn limit_entries(ents: &mut Vec<Entry>, max_size: u64)
    requires
        forall|i: int|
            0 <= i < old(ents)@.len() ==> (#[trigger] old(ents)@[i]@.serialized_size()) <= u64::MAX,
    ensures
        final(ents)@ == old(ents)@.take(cap_take(views_of(old(ents)@), 0, max_size as int)),
{
    let n: usize = ents.len();
    let k: usize = cap_count(ents, 0, n, 0, max_size);
    proof {
        assert(views_of(ents@).subrange(0, n as int) =~= views_of(ents@));
    }
    ents.truncate(k);
    proof {
        assert(ents@ =~= old(ents)@.take(k as int));
    }
}

} // verus!
