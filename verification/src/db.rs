use crate::order::{
    lemma_lex_before_irreflexive, lemma_lex_before_transitive, rank_text, same_text, text_before,
    Rank,
};
use vstd::prelude::*;
use vstd::slice::slice_to_vec;
use vstd::utf8::encode_utf8;

verus! {

/// What is stored under a key: the bytes, and the second at which they expire.
#[derive(Clone, Debug)]
pub struct Value {
    pub value: Vec<u8>,
    pub expires_at: Option<u32>,
}

/// The mathematical value of a [`Value`].
pub struct ValueView {
    pub value: Seq<u8>,
    pub expires_at: Option<u32>,
}

impl View for Value {
    type V = ValueView;

    open spec fn view(&self) -> ValueView {
        ValueView { value: self.value@, expires_at: self.expires_at }
    }
}

/// Whether a list of entries holds a key.
pub open spec fn holds_key(entries: Seq<(Seq<char>, ValueView)>, key: Seq<char>) -> bool {
    exists|i: int| 0 <= i < entries.len() && (#[trigger] entries[i]).0 == key
}

/// Some place at which a list of entries holds a key.
pub open spec fn place_of_key(entries: Seq<(Seq<char>, ValueView)>, key: Seq<char>) -> int {
    choose|i: int| 0 <= i < entries.len() && (#[trigger] entries[i]).0 == key
}

/// The mapping that a list of entries stands for.
pub open spec fn map_of(entries: Seq<(Seq<char>, ValueView)>) -> Map<Seq<char>, ValueView> {
    Map::new(
        |key: Seq<char>| holds_key(entries, key),
        |key: Seq<char>| entries[place_of_key(entries, key)].1,
    )
}

/// Whether no key occurs twice in a list of entries.
pub open spec fn unique_keys(entries: Seq<(Seq<char>, ValueView)>) -> bool {
    forall|i: int, j: int|
        0 <= i < j < entries.len() ==> (#[trigger] entries[i]).0 != (#[trigger] entries[j]).0
}

/// Whether one row of the expiry index comes before another: by the second
/// of expiry, and among rows of one second by the key.
pub open spec fn row_before(a: (u32, Seq<char>), b: (u32, Seq<char>)) -> bool {
    a.0 < b.0 || (a.0 == b.0 && text_before(a.1, b.1))
}

/// Whether the rows of an expiry index stand in ascending order, none twice.
pub open spec fn ordered(rows: Seq<(u32, Seq<char>)>) -> bool {
    forall|i: int, j: int|
        0 <= i < j < rows.len() ==> row_before(#[trigger] rows[i], #[trigger] rows[j])
}

/// Whether an expiry index goes with a mapping: every key that expires has
/// its row, and every row is that of a key that expires at the row's second.
pub open spec fn indexed(entries: Map<Seq<char>, ValueView>, rows: Seq<(u32, Seq<char>)>) -> bool {
    &&& forall|key: Seq<char>| #[trigger]
        entries.dom().contains(key) ==> (entries[key].expires_at matches Some(at)
            ==> rows.contains((at, key)))
    &&& forall|j: int|
        0 <= j < rows.len() ==> entries.dom().contains((#[trigger] rows[j]).1)
            && entries[rows[j].1].expires_at == Some(rows[j].0)
}

/// In a list without a repeated key, each entry is what the mapping gives
/// for its key, and the mapping has no other keys.
pub proof fn lemma_map_of(entries: Seq<(Seq<char>, ValueView)>)
    requires
        unique_keys(entries),
    ensures
        forall|i: int|
            0 <= i < entries.len() ==> map_of(entries).dom().contains((#[trigger] entries[i]).0)
                && map_of(entries)[entries[i].0] == entries[i].1,
        forall|key: Seq<char>| #[trigger]
            map_of(entries).dom().contains(key) <==> holds_key(entries, key),
{
    assert forall|i: int| 0 <= i < entries.len() implies map_of(entries).dom().contains(
        (#[trigger] entries[i]).0,
    ) && map_of(entries)[entries[i].0] == entries[i].1 by {
        let key = entries[i].0;
        assert(holds_key(entries, key));
        let at = place_of_key(entries, key);
        assert(at == i);
    }
}

/// Adding an entry under a key that the list lacks adds it to the mapping.
pub proof fn lemma_map_of_push(
    entries: Seq<(Seq<char>, ValueView)>,
    key: Seq<char>,
    value: ValueView,
)
    requires
        unique_keys(entries),
        !holds_key(entries, key),
    ensures
        unique_keys(entries.push((key, value))),
        map_of(entries.push((key, value))) == map_of(entries).insert(key, value),
{
    let longer = entries.push((key, value));
    assert forall|i: int, j: int| 0 <= i < j < longer.len() implies (#[trigger] longer[i]).0 != (
    #[trigger] longer[j]).0 by {
        if j < entries.len() {
            assert(longer[i] == entries[i] && longer[j] == entries[j]);
        } else {
            assert(longer[i] == entries[i]);
        }
    }
    lemma_map_of(entries);
    lemma_map_of(longer);
    assert forall|k: Seq<char>| map_of(longer).dom().contains(k) <==> map_of(entries).insert(
        key,
        value,
    ).dom().contains(k) by {
        if holds_key(longer, k) {
            let i = place_of_key(longer, k);
            if i < entries.len() {
                assert(entries[i] == longer[i]);
            }
        }
        if holds_key(entries, k) {
            let i = place_of_key(entries, k);
            assert(longer[i] == entries[i]);
        }
        if k == key {
            assert(longer[entries.len() as int].0 == key);
        }
    }
    assert forall|k: Seq<char>| map_of(longer).dom().contains(k) implies map_of(longer)[k]
        == map_of(entries).insert(key, value)[k] by {
        let i = place_of_key(longer, k);
        if i < entries.len() {
            assert(entries[i] == longer[i]);
        }
    }
    assert(map_of(longer) =~= map_of(entries).insert(key, value));
}

/// Taking an entry out of a list without a repeated key takes its key out of
/// the mapping.
pub proof fn lemma_map_of_remove(entries: Seq<(Seq<char>, ValueView)>, at: int)
    requires
        unique_keys(entries),
        0 <= at < entries.len(),
    ensures
        unique_keys(entries.remove(at)),
        map_of(entries.remove(at)) == map_of(entries).remove(entries[at].0),
{
    let shorter = entries.remove(at);
    let key = entries[at].0;
    assert forall|i: int| 0 <= i < shorter.len() implies #[trigger] shorter[i] == entries[if i
        < at {
        i
    } else {
        i + 1
    }] by {}
    assert forall|i: int, j: int| 0 <= i < j < shorter.len() implies (#[trigger] shorter[i]).0 != (
    #[trigger] shorter[j]).0 by {
        let i0 = if i < at { i } else { i + 1 };
        let j0 = if j < at { j } else { j + 1 };
        assert(shorter[i] == entries[i0] && shorter[j] == entries[j0]);
    }
    lemma_map_of(entries);
    lemma_map_of(shorter);
    assert forall|k: Seq<char>| map_of(shorter).dom().contains(k) <==> map_of(entries).remove(
        key,
    ).dom().contains(k) by {
        if holds_key(shorter, k) {
            let i = place_of_key(shorter, k);
            let i0 = if i < at { i } else { i + 1 };
            assert(shorter[i] == entries[i0]);
            assert(holds_key(entries, k));
            if k == key {
                assert(entries[i0].0 == entries[at].0);
            }
        }
        if holds_key(entries, k) && k != key {
            let i0 = place_of_key(entries, k);
            let i = if i0 < at { i0 } else { i0 - 1 };
            assert(shorter[i] == entries[i0]);
        }
    }
    assert forall|k: Seq<char>| map_of(shorter).dom().contains(k) implies map_of(shorter)[k]
        == map_of(entries).remove(key)[k] by {
        let i = place_of_key(shorter, k);
        let i0 = if i < at { i } else { i + 1 };
        assert(shorter[i] == entries[i0]);
    }
    assert(map_of(shorter) =~= map_of(entries).remove(key));
}

/// A list without a repeated key stands for a mapping of as many keys as
/// it has entries.
pub proof fn lemma_map_of_len(entries: Seq<(Seq<char>, ValueView)>)
    requires
        unique_keys(entries),
    ensures
        map_of(entries).dom().finite(),
        map_of(entries).len() == entries.len(),
    decreases entries.len(),
{
    if entries.len() == 0 {
        assert(map_of(entries) =~= Map::<Seq<char>, ValueView>::empty());
    } else {
        let fewer = entries.drop_last();
        let last = entries.last();
        assert forall|i: int, j: int| 0 <= i < j < fewer.len() implies (#[trigger] fewer[i]).0 != (
        #[trigger] fewer[j]).0 by {
            assert(fewer[i] == entries[i] && fewer[j] == entries[j]);
        }
        assert(!holds_key(fewer, last.0)) by {
            if holds_key(fewer, last.0) {
                let i = place_of_key(fewer, last.0);
                assert(fewer[i] == entries[i]);
            }
        }
        lemma_map_of_len(fewer);
        lemma_map_of(fewer);
        lemma_map_of_push(fewer, last.0, last.1);
        assert(entries =~= fewer.push((last.0, last.1)));
    }
}

/// The order of the rows is transitive.
pub proof fn lemma_row_before_transitive(
    a: (u32, Seq<char>),
    b: (u32, Seq<char>),
    c: (u32, Seq<char>),
)
    requires
        row_before(a, b),
        row_before(b, c),
    ensures
        row_before(a, c),
{
    if a.0 == b.0 && b.0 == c.0 {
        lemma_lex_before_transitive(encode_utf8(a.1), encode_utf8(b.1), encode_utf8(c.1));
    }
}

/// No row comes before itself.
pub proof fn lemma_row_before_irreflexive(a: (u32, Seq<char>))
    ensures
        !row_before(a, a),
{
    lemma_lex_before_irreflexive(encode_utf8(a.1));
}

/// In an ordered index no row stands at two places.
pub proof fn lemma_ordered_distinct(rows: Seq<(u32, Seq<char>)>, i: int, j: int)
    requires
        ordered(rows),
        0 <= i < rows.len(),
        0 <= j < rows.len(),
        rows[i] == rows[j],
    ensures
        i == j,
{
    lemma_row_before_irreflexive(rows[i]);
}

/// Whether what is stored has expired at a second.
pub open spec fn expired(value: ValueView, now: u32) -> bool {
    value.expires_at matches Some(at) && at <= now
}

/// The entries of a mapping that have not expired at a second.
pub open spec fn unexpired(entries: Map<Seq<char>, ValueView>, now: u32) -> Map<
    Seq<char>,
    ValueView,
> {
    Map::new(
        |key: Seq<char>| entries.dom().contains(key) && !expired(entries[key], now),
        |key: Seq<char>| entries[key],
    )
}

/// Whether a second is the earliest at which an entry of a mapping expires.
pub open spec fn is_earliest(entries: Map<Seq<char>, ValueView>, at: u32) -> bool {
    &&& exists|key: Seq<char>| #[trigger]
        entries.dom().contains(key) && entries[key].expires_at == Some(at)
    &&& forall|key: Seq<char>| #[trigger]
        entries.dom().contains(key) ==> (entries[key].expires_at matches Some(other) ==> at
            <= other)
}

/// Whether no entry of a mapping expires.
pub open spec fn none_expires(entries: Map<Seq<char>, ValueView>) -> bool {
    forall|key: Seq<char>| #[trigger]
        entries.dom().contains(key) ==> entries[key].expires_at is None
}

/// Taking a row out of the index, and its key out of the mapping, keeps the
/// index in order and in step with the mapping.
proof fn lemma_row_removed(
    before: Map<Seq<char>, ValueView>,
    rows: Seq<(u32, Seq<char>)>,
    row: int,
)
    requires
        indexed(before, rows),
        ordered(rows),
        0 <= row < rows.len(),
    ensures
        ordered(rows.remove(row)),
        indexed(before.remove(rows[row].1), rows.remove(row)),
{
    let key = rows[row].1;
    let after = before.remove(key);
    let fewer = rows.remove(row);
    assert forall|i: int| 0 <= i < fewer.len() implies #[trigger] fewer[i] == rows[if i < row {
        i
    } else {
        i + 1
    }] by {}
    assert forall|i: int, j: int| 0 <= i < j < fewer.len() implies row_before(
        #[trigger] fewer[i],
        #[trigger] fewer[j],
    ) by {
        let i0 = if i < row { i } else { i + 1 };
        let j0 = if j < row { j } else { j + 1 };
        assert(fewer[i] == rows[i0] && fewer[j] == rows[j0]);
    }
    assert forall|k: Seq<char>| #[trigger] after.dom().contains(k) implies (
    after[k].expires_at matches Some(at) ==> fewer.contains((at, k))) by {
        if after[k].expires_at is Some {
            let at = after[k].expires_at->0;
            assert(before.dom().contains(k));
            let j0 = choose|j0: int| 0 <= j0 < rows.len() && rows[j0] == (at, k);
            let j = if j0 < row { j0 } else { j0 - 1 };
            assert(fewer[j] == rows[j0]);
        }
    }
    assert forall|j: int| 0 <= j < fewer.len() implies after.dom().contains(
        (#[trigger] fewer[j]).1,
    ) && after[fewer[j].1].expires_at == Some(fewer[j].0) by {
        let j0 = if j < row { j } else { j + 1 };
        assert(fewer[j] == rows[j0]);
        if rows[j0].1 == key {
            assert(rows[j0] == rows[row]);
            lemma_ordered_distinct(rows, j0, row);
        }
    }
}

/// Taking a key that does not expire out of the mapping leaves the index in
/// step with it.
proof fn lemma_untimed_removed(
    before: Map<Seq<char>, ValueView>,
    rows: Seq<(u32, Seq<char>)>,
    key: Seq<char>,
)
    requires
        indexed(before, rows),
        before.dom().contains(key),
        before[key].expires_at is None,
    ensures
        indexed(before.remove(key), rows),
{
    let after = before.remove(key);
    assert forall|k: Seq<char>| #[trigger] after.dom().contains(k) implies (
    after[k].expires_at matches Some(at) ==> rows.contains((at, k))) by {
        assert(before.dom().contains(k));
    }
}

/// Putting a row into the index at its place, and its key into the mapping,
/// keeps the index in order and in step with the mapping.
proof fn lemma_row_inserted(
    before: Map<Seq<char>, ValueView>,
    rows: Seq<(u32, Seq<char>)>,
    place: int,
    row: (u32, Seq<char>),
    stored: ValueView,
)
    requires
        indexed(before, rows),
        ordered(rows),
        !before.dom().contains(row.1),
        stored.expires_at == Some(row.0),
        0 <= place <= rows.len(),
        forall|i: int| 0 <= i < place ==> row_before(#[trigger] rows[i], row),
        place < rows.len() ==> row_before(row, rows[place]) || rows[place] == row,
    ensures
        ordered(rows.insert(place, row)),
        indexed(before.insert(row.1, stored), rows.insert(place, row)),
{
    let after = before.insert(row.1, stored);
    let more = rows.insert(place, row);
    assert forall|i: int| 0 <= i < more.len() && i != place implies #[trigger] more[i]
        == rows[if i < place {
        i
    } else {
        i - 1
    }] by {}
    assert(more[place] == row);
    if place < rows.len() {
        assert(before.dom().contains(rows[place].1));
        assert(row_before(row, rows[place]));
    }
    assert forall|i: int, j: int| 0 <= i < j < more.len() implies row_before(
        #[trigger] more[i],
        #[trigger] more[j],
    ) by {
        if i == place {
            assert(more[j] == rows[j - 1]);
            if j - 1 > place {
                lemma_row_before_transitive(row, rows[place], rows[j - 1]);
            }
        } else if j == place {
            assert(more[i] == rows[i]);
        } else {
            let i0 = if i < place { i } else { i - 1 };
            let j0 = if j < place { j } else { j - 1 };
            assert(more[i] == rows[i0] && more[j] == rows[j0]);
        }
    }
    assert forall|k: Seq<char>| #[trigger] after.dom().contains(k) implies (
    after[k].expires_at matches Some(at) ==> more.contains((at, k))) by {
        if k == row.1 {
            assert(more[place] == (row.0, k));
        } else if after[k].expires_at is Some {
            let at = after[k].expires_at->0;
            assert(before.dom().contains(k));
            let j0 = choose|j0: int| 0 <= j0 < rows.len() && rows[j0] == (at, k);
            let j = if j0 < place { j0 } else { j0 + 1 };
            assert(more[j] == rows[j0]);
        }
    }
    assert forall|j: int| 0 <= j < more.len() implies after.dom().contains((#[trigger] more[j]).1)
        && after[more[j].1].expires_at == Some(more[j].0) by {
        if j != place {
            let j0 = if j < place { j } else { j - 1 };
            assert(more[j] == rows[j0]);
            assert(before.dom().contains(rows[j0].1));
        }
    }
}

/// Putting a key that does not expire into the mapping leaves the index in
/// step with it.
proof fn lemma_untimed_inserted(
    before: Map<Seq<char>, ValueView>,
    rows: Seq<(u32, Seq<char>)>,
    key: Seq<char>,
    stored: ValueView,
)
    requires
        indexed(before, rows),
        !before.dom().contains(key),
        stored.expires_at is None,
    ensures
        indexed(before.insert(key, stored), rows),
{
    let after = before.insert(key, stored);
    assert forall|k: Seq<char>| #[trigger] after.dom().contains(k) implies (
    after[k].expires_at matches Some(at) ==> rows.contains((at, k))) by {
        if k != key {
            assert(before.dom().contains(k));
        }
    }
    assert forall|j: int| 0 <= j < rows.len() implies after.dom().contains((#[trigger] rows[j]).1)
        && after[rows[j].1].expires_at == Some(rows[j].0) by {
        assert(before.dom().contains(rows[j].1));
    }
}

/// Where the first row of the index expires later than a second, nothing has
/// expired at that second.
proof fn lemma_all_unexpired(
    entries: Map<Seq<char>, ValueView>,
    rows: Seq<(u32, Seq<char>)>,
    now: u32,
)
    requires
        indexed(entries, rows),
        ordered(rows),
        rows.len() == 0 || rows[0].0 > now,
    ensures
        unexpired(entries, now) == entries,
{
    assert forall|k: Seq<char>| entries.dom().contains(k) implies !expired(entries[k], now) by {
        if entries[k].expires_at is Some {
            let at = entries[k].expires_at->0;
            let j = choose|j: int| 0 <= j < rows.len() && rows[j] == (at, k);
            if j > 0 {
                assert(row_before(rows[0], rows[j]));
            }
        }
    }
    assert(unexpired(entries, now) =~= entries);
}

/// The first row of the index holds the earliest second at which an entry
/// expires; where the index is empty, no entry expires.
proof fn lemma_earliest(entries: Map<Seq<char>, ValueView>, rows: Seq<(u32, Seq<char>)>)
    requires
        indexed(entries, rows),
        ordered(rows),
    ensures
        rows.len() > 0 ==> is_earliest(entries, rows[0].0),
        rows.len() == 0 ==> none_expires(entries),
{
    if rows.len() > 0 {
        assert(entries.dom().contains(rows[0].1) && entries[rows[0].1].expires_at == Some(
            rows[0].0,
        ));
        assert forall|k: Seq<char>| #[trigger] entries.dom().contains(k) implies (
        entries[k].expires_at matches Some(other) ==> rows[0].0 <= other) by {
            if entries[k].expires_at is Some {
                let at = entries[k].expires_at->0;
                let j = choose|j: int| 0 <= j < rows.len() && rows[j] == (at, k);
                if j > 0 {
                    assert(row_before(rows[0], rows[j]));
                }
            }
        }
    } else {
        assert forall|k: Seq<char>| #[trigger]
            entries.dom().contains(k) implies entries[k].expires_at is None by {
            if entries[k].expires_at is Some {
                let at = entries[k].expires_at->0;
                assert(rows.contains((at, k)));
            }
        }
    }
}

/// The entries of the database and the index of their expiry.
pub struct Store {
    entries: Vec<(String, Value)>,
    ttls: Vec<(u32, String)>,
}

impl View for Store {
    type V = Map<Seq<char>, ValueView>;

    /// The mapping from keys to what is stored under them.
    open spec fn view(&self) -> Map<Seq<char>, ValueView> {
        map_of(self.entry_seq())
    }
}

impl Store {
    /// The entries, in the order in which they are kept.
    pub closed spec fn entry_seq(&self) -> Seq<(Seq<char>, ValueView)> {
        self.entries@.map_values(|e: (String, Value)| (e.0@, e.1@))
    }

    /// The rows of the expiry index, in the order in which they are kept.
    pub closed spec fn ttl_seq(&self) -> Seq<(u32, Seq<char>)> {
        self.ttls@.map_values(|r: (u32, String)| (r.0, r.1@))
    }

    /// The store's invariant: no key is kept twice, the expiry index is in
    /// ascending order, and it holds just the keys that expire, each with its
    /// second of expiry.
    pub open spec fn wf(&self) -> bool {
        &&& unique_keys(self.entry_seq())
        &&& ordered(self.ttl_seq())
        &&& indexed(self@, self.ttl_seq())
    }

    /// A store without entries.
    pub fn new() -> (store: Store)
        ensures
            store.wf(),
            store@ == Map::<Seq<char>, ValueView>::empty(),
            store.ttl_seq().len() == 0,
    {
        let store = Store { entries: Vec::new(), ttls: Vec::new() };
        proof {
            assert(store.entry_seq() =~= Seq::empty());
            assert(store.ttl_seq() =~= Seq::empty());
            assert(store@ =~= Map::<Seq<char>, ValueView>::empty());
        }
        store
    }

    /// The number of entries.
    pub fn len(&self) -> (n: usize)
        ensures
            n == self.entry_seq().len(),
            self.wf() ==> n == self@.len(),
    {
        proof {
            if self.wf() {
                lemma_map_of_len(self.entry_seq());
            }
        }
        self.entries.len()
    }

    /// The number of rows of the expiry index.
    pub fn ttl_len(&self) -> (n: usize)
        ensures
            n == self.ttl_seq().len(),
    {
        self.ttls.len()
    }

    /// The entry at a place, in the order in which the entries are kept: its
    /// key, and what is stored under it.
    pub fn entry_at(&self, at: usize) -> (entry: Option<(&String, &Value)>)
        ensures
            match entry {
                Some((key, value)) => at < self.entry_seq().len() && (key@, value@)
                    == self.entry_seq()[at as int],
                None => at >= self.entry_seq().len(),
            },
    {
        if at < self.entries.len() {
            Some((&self.entries[at].0, &self.entries[at].1))
        } else {
            None
        }
    }

    /// The place at which a key is kept.
    fn find(&self, key: &str) -> (found: Option<usize>)
        ensures
            match found {
                Some(at) => at < self.entry_seq().len() && self.entry_seq()[at as int].0 == key@,
                None => !holds_key(self.entry_seq(), key@),
            },
    {
        let mut at: usize = 0;
        while at < self.entries.len()
            invariant
                at <= self.entries.len(),
                forall|i: int| 0 <= i < at ==> (#[trigger] self.entry_seq()[i]).0 != key@,
            decreases self.entries.len() - at,
        {
            if same_text(self.entries[at].0.as_str(), key) {
                return Some(at);
            }
            at += 1;
        }
        None
    }

    /// The place at which a row stands in the expiry index.
    fn find_row(&self, expires_at: u32, key: &str) -> (found: Option<usize>)
        ensures
            match found {
                Some(at) => at < self.ttl_seq().len() && self.ttl_seq()[at as int] == (
                    expires_at,
                    key@,
                ),
                None => !self.ttl_seq().contains((expires_at, key@)),
            },
    {
        let mut at: usize = 0;
        while at < self.ttls.len()
            invariant
                at <= self.ttls.len(),
                forall|i: int| 0 <= i < at ==> #[trigger] self.ttl_seq()[i] != (expires_at, key@),
            decreases self.ttls.len() - at,
        {
            if self.ttls[at].0 == expires_at && same_text(self.ttls[at].1.as_str(), key) {
                return Some(at);
            }
            at += 1;
        }
        None
    }

    /// The place at which a new row belongs: behind the rows that come before
    /// it, and before the row that it comes before.
    fn place_of_row(&self, expires_at: u32, key: &str) -> (at: usize)
        ensures
            at <= self.ttl_seq().len(),
            forall|i: int|
                0 <= i < at ==> row_before(#[trigger] self.ttl_seq()[i], (expires_at, key@)),
            at < self.ttl_seq().len() ==> row_before((expires_at, key@), self.ttl_seq()[at as int])
                || self.ttl_seq()[at as int] == (expires_at, key@),
    {
        let mut at: usize = 0;
        while at < self.ttls.len()
            invariant
                at <= self.ttls.len(),
                forall|i: int|
                    0 <= i < at ==> row_before(#[trigger] self.ttl_seq()[i], (expires_at, key@)),
            decreases self.ttls.len() - at,
        {
            let row = &self.ttls[at];
            assert(self.ttl_seq()[at as int] == (row.0, row.1@));
            if row.0 > expires_at {
                return at;
            }
            if row.0 == expires_at {
                match rank_text(row.1.as_str(), key) {
                    Rank::Before => {},
                    Rank::Same => {
                        return at;
                    },
                    Rank::After => {
                        return at;
                    },
                }
            }
            at += 1;
        }
        at
    }

    /// The bytes stored under a key, if it is kept.
    pub fn get(&self, key: &str) -> (found: Option<Vec<u8>>)
        requires
            self.wf(),
        ensures
            match found {
                Some(bytes) => self@.dom().contains(key@) && bytes@ == self@[key@].value,
                None => !self@.dom().contains(key@),
            },
    {
        proof {
            lemma_map_of(self.entry_seq());
        }
        match self.find(key) {
            Some(at) => Some(slice_to_vec(self.entries[at].1.value.as_slice())),
            None => None,
        }
    }

    /// Takes a key out of the store, with its row of the expiry index, and
    /// returns the bytes that were stored under it.
    pub fn delete(&mut self, key: &str) -> (removed: Option<Vec<u8>>)
        requires
            old(self).wf(),
        ensures
            final(self).wf(),
            final(self)@ == old(self)@.remove(key@),
            match removed {
                Some(bytes) => old(self)@.dom().contains(key@) && bytes@ == old(self)@[key@].value
                    && final(self).entry_seq().len() == old(self).entry_seq().len() - 1,
                None => !old(self)@.dom().contains(key@) && final(self).entry_seq()
                    == old(self).entry_seq(),
            },
    {
        proof {
            lemma_map_of(self.entry_seq());
        }
        match self.find(key) {
            None => {
                assert(self@ =~= old(self)@.remove(key@));
                None
            },
            Some(at) => {
                let ghost entries = self.entry_seq();
                let ghost rows = self.ttl_seq();
                let entry = self.entries.remove(at);
                proof {
                    assert(self.entry_seq() =~= entries.remove(at as int));
                    lemma_map_of_remove(entries, at as int);
                }
                if let Some(expires_at) = entry.1.expires_at {
                    match self.find_row(expires_at, key) {
                        Some(row) => {
                            self.ttls.remove(row);
                            proof {
                                assert(self.ttl_seq() =~= rows.remove(row as int));
                                lemma_row_removed(old(self)@, rows, row as int);
                            }
                        },
                        None => {
                            assert(false);
                        },
                    }
                } else {
                    proof {
                        lemma_untimed_removed(old(self)@, rows, key@);
                    }
                }
                Some(entry.1.value)
            },
        }
    }

    /// Stores bytes under a key, with the second at which they expire or
    /// without one. What was stored under the key before is replaced, and so
    /// is its row of the expiry index.
    pub fn set(&mut self, key: String, value: Vec<u8>, expires_at: Option<u32>)
        requires
            old(self).wf(),
        ensures
            final(self).wf(),
            final(self)@ == old(self)@.insert(
                key@,
                ValueView { value: value@, expires_at: expires_at },
            ),
    {
        self.delete(key.as_str());
        let ghost entries = self.entry_seq();
        let ghost rows = self.ttl_seq();
        let ghost before = self@;
        let ghost stored = ValueView { value: value@, expires_at: expires_at };
        proof {
            lemma_map_of(entries);
            assert(before.insert(key@, stored) =~= old(self)@.insert(key@, stored));
        }
        if let Some(at) = expires_at {
            let place = self.place_of_row(at, key.as_str());
            self.ttls.insert(place, (at, key.clone()));
            proof {
                assert(self.ttl_seq() =~= rows.insert(place as int, (at, key@)));
                lemma_row_inserted(before, rows, place as int, (at, key@), stored);
            }
        } else {
            proof {
                lemma_untimed_inserted(before, rows, key@, stored);
            }
        }
        self.entries.push((key, Value { value, expires_at }));
        proof {
            assert(self.entry_seq() =~= entries.push((key@, stored)));
            lemma_map_of_push(entries, key@, stored);
        }
    }

    /// Takes out every entry that expires at or before a second, and returns
    /// the earliest second at which one of the others expires.
    pub fn delete_entries(&mut self, now: u32) -> (next: Option<u32>)
        requires
            old(self).wf(),
        ensures
            final(self).wf(),
            final(self)@ == unexpired(old(self)@, now),
            match next {
                Some(at) => is_earliest(final(self)@, at),
                None => none_expires(final(self)@),
            },
    {
        proof {
            assert(unexpired(self@, now) =~= unexpired(old(self)@, now));
        }
        while self.ttls.len() > 0 && self.ttls[0].0 <= now
            invariant
                self.wf(),
                unexpired(self@, now) == unexpired(old(self)@, now),
            decreases self.entry_seq().len(),
        {
            let ghost before = self@;
            let ghost rows = self.ttl_seq();
            let key = self.ttls[0].1.clone();
            proof {
                assert(rows[0] == (self.ttls[0].0, key@));
                assert(before.dom().contains(key@));
            }
            self.delete(key.as_str());
            proof {
                assert(unexpired(self@, now) =~= unexpired(before, now));
            }
        }
        proof {
            lemma_all_unexpired(self@, self.ttl_seq(), now);
            lemma_earliest(self@, self.ttl_seq());
        }
        if self.ttls.len() > 0 {
            Some(self.ttls[0].0)
        } else {
            None
        }
    }
}

/// The second at which an entry expires that is stored at a second to live
/// for a number of seconds: their sum, or the last second that can be written
/// where the sum lies behind it.
pub open spec fn expiry(now: u32, ttl: u32) -> u32 {
    if now + ttl > u32::MAX {
        u32::MAX
    } else {
        (now + ttl) as u32
    }
}

/// The second of expiry that goes with a time to live, if there is one.
pub open spec fn expiry_of(now: u32, ttl: Option<u32>) -> Option<u32> {
    match ttl {
        Some(seconds) => Some(expiry(now, seconds)),
        None => None,
    }
}

/// The database: a store that reads the time from the system clock.
pub struct DB {
    store: Store,
}

impl Default for DB {
    fn default() -> (db: DB)
        ensures
            db@ == Map::<Seq<char>, ValueView>::empty(),
    {
        DB::new()
    }
}

impl View for DB {
    type V = Map<Seq<char>, ValueView>;

    closed spec fn view(&self) -> Map<Seq<char>, ValueView> {
        self.store@
    }
}

impl DB {
    #[verifier::type_invariant]
    spec fn well_formed(self) -> bool {
        self.store.wf()
    }

    /// A database without entries.
    pub fn new() -> (db: DB)
        ensures
            db@ == Map::<Seq<char>, ValueView>::empty(),
    {
        DB { store: Store::new() }
    }

    /// The entries, in the order in which they are kept.
    pub closed spec fn entry_seq(&self) -> Seq<(Seq<char>, ValueView)> {
        self.store.entry_seq()
    }

    /// The rows of the expiry index, in the order in which they are kept.
    pub closed spec fn ttl_seq(&self) -> Seq<(u32, Seq<char>)> {
        self.store.ttl_seq()
    }

    /// The store that holds the entries.
    pub fn store(&self) -> (store: &Store)
        ensures
            store.wf(),
            store@ == self@,
            store.entry_seq() == self.entry_seq(),
            store.ttl_seq() == self.ttl_seq(),
    {
        proof {
            use_type_invariant(self);
        }
        &self.store
    }

    /// Stores bytes under a key, to live for a number of seconds from now or
    /// without end. The second of expiry is counted from some reading of the
    /// system clock.
    pub fn set(&mut self, key: String, value: Vec<u8>, ttl: Option<u32>)
        ensures
            exists|now: u32|
                final(self)@ == old(self)@.insert(
                    key@,
                    ValueView { value: value@, expires_at: #[trigger] expiry_of(now, ttl) },
                ),
            ttl is None ==> final(self)@ == old(self)@.insert(
                key@,
                ValueView { value: value@, expires_at: None },
            ),
    {
        let now = crate::clock::now();
        self.set_at(key, value, ttl, now);
    }

    /// Stores bytes under a key at a given second, to live for a number of
    /// seconds from then or without end.
    pub fn set_at(&mut self, key: String, value: Vec<u8>, ttl: Option<u32>, now: u32)
        ensures
            final(self)@ == old(self)@.insert(
                key@,
                ValueView { value: value@, expires_at: expiry_of(now, ttl) },
            ),
    {
        proof {
            use_type_invariant(&*self);
        }
        let expires_at = match ttl {
            Some(seconds) => Some(now.saturating_add(seconds)),
            None => None,
        };
        // The store is taken out while it changes, so that the database
        // holds a well-formed one at every moment.
        let mut store = Store::new();
        std::mem::swap(&mut self.store, &mut store);
        store.set(key, value, expires_at);
        std::mem::swap(&mut self.store, &mut store);
    }

    /// The bytes stored under a key, if it is kept.
    pub fn get(&self, key: &str) -> (found: Option<Vec<u8>>)
        ensures
            match found {
                Some(bytes) => self@.dom().contains(key@) && bytes@ == self@[key@].value,
                None => !self@.dom().contains(key@),
            },
    {
        proof {
            use_type_invariant(self);
        }
        self.store.get(key)
    }

    /// Takes a key out of the database and returns the bytes that were
    /// stored under it.
    pub fn delete(&mut self, key: &str) -> (removed: Option<Vec<u8>>)
        ensures
            final(self)@ == old(self)@.remove(key@),
            match removed {
                Some(bytes) => old(self)@.dom().contains(key@) && bytes@ == old(self)@[key@].value,
                None => !old(self)@.dom().contains(key@),
            },
    {
        proof {
            use_type_invariant(&*self);
        }
        let mut store = Store::new();
        std::mem::swap(&mut self.store, &mut store);
        let removed = store.delete(key);
        std::mem::swap(&mut self.store, &mut store);
        removed
    }

    /// Takes out every entry that has expired by some reading of the system
    /// clock, and returns the earliest second at which one of the others
    /// expires.
    pub fn delete_entries(&mut self) -> (next: Option<u32>)
        ensures
            exists|now: u32| final(self)@ == #[trigger] unexpired(old(self)@, now),
            match next {
                Some(at) => is_earliest(final(self)@, at),
                None => none_expires(final(self)@),
            },
    {
        let now = crate::clock::now();
        self.delete_entries_at(now)
    }

    /// Takes out every entry that expires at or before a second, and returns
    /// the earliest second at which one of the others expires.
    pub fn delete_entries_at(&mut self, now: u32) -> (next: Option<u32>)
        ensures
            final(self)@ == unexpired(old(self)@, now),
            match next {
                Some(at) => is_earliest(final(self)@, at),
                None => none_expires(final(self)@),
            },
    {
        proof {
            use_type_invariant(&*self);
        }
        let mut store = Store::new();
        std::mem::swap(&mut self.store, &mut store);
        let next = store.delete_entries(now);
        std::mem::swap(&mut self.store, &mut store);
        next
    }
}

/// One change of the entries of a database.
pub enum Change {
    /// Bytes are stored under a key, with or without a second of expiry.
    Stored { key: Seq<char>, value: ValueView },
    /// A key is taken out.
    Deleted { key: Seq<char> },
    /// The entries that have expired at a second are taken out.
    Expired { now: u32 },
}

impl Change {
    /// The entries after this change.
    pub open spec fn applied(self, entries: Map<Seq<char>, ValueView>) -> Map<
        Seq<char>,
        ValueView,
    > {
        match self {
            Change::Stored { key, value } => entries.insert(key, value),
            Change::Deleted { key } => entries.remove(key),
            Change::Expired { now } => unexpired(entries, now),
        }
    }

    /// Whether this change stores or deletes a given key.
    pub open spec fn touches(self, key: Seq<char>) -> bool {
        match self {
            Change::Stored { key: stored, .. } => stored == key,
            Change::Deleted { key: deleted } => deleted == key,
            Change::Expired { .. } => false,
        }
    }
}

/// The entries after a sequence of changes, the first one first.
pub open spec fn changed(entries: Map<Seq<char>, ValueView>, changes: Seq<Change>) -> Map<
    Seq<char>,
    ValueView,
>
    decreases changes.len(),
{
    if changes.len() == 0 {
        entries
    } else {
        changes.last().applied(changed(entries, changes.drop_last()))
    }
}

/// What is stored under a key without a second of expiry stays there, as
/// long as the key is neither stored again nor deleted: whatever else is
/// stored or deleted, and whenever entries expire.
pub proof fn untimed_entry_stays(
    entries: Map<Seq<char>, ValueView>,
    key: Seq<char>,
    value: Seq<u8>,
    changes: Seq<Change>,
)
    requires
        forall|i: int| 0 <= i < changes.len() ==> !(#[trigger] changes[i]).touches(key),
    ensures
        changed(
            entries.insert(key, ValueView { value, expires_at: None }),
            changes,
        ).dom().contains(key),
        changed(entries.insert(key, ValueView { value, expires_at: None }), changes)[key]
            == (ValueView { value, expires_at: None }),
    decreases changes.len(),
{
    if changes.len() > 0 {
        let earlier = changes.drop_last();
        assert forall|i: int| 0 <= i < earlier.len() implies !(#[trigger] earlier[i]).touches(
            key,
        ) by {
            assert(earlier[i] == changes[i]);
        }
        untimed_entry_stays(entries, key, value, earlier);
        assert(!changes.last().touches(key));
    }
}

/// What is stored under a key at a second, to live for a number of seconds,
/// stays there as long as the key is neither stored again nor deleted and
/// entries expire only at seconds before the one at which its life ends:
/// the sum of the second and the seconds to live, or the last second that
/// can be written where the sum lies behind it.
pub proof fn timed_entry_stays(
    entries: Map<Seq<char>, ValueView>,
    key: Seq<char>,
    value: Seq<u8>,
    stored_at: u32,
    ttl: u32,
    changes: Seq<Change>,
)
    requires
        forall|i: int| 0 <= i < changes.len() ==> !(#[trigger] changes[i]).touches(key),
        forall|i: int|
            0 <= i < changes.len() ==> ((#[trigger] changes[i]) matches Change::Expired { now }
                ==> now < expiry(stored_at, ttl)),
    ensures
        changed(
            entries.insert(key, ValueView { value, expires_at: expiry_of(stored_at, Some(ttl)) }),
            changes,
        ).dom().contains(key),
        changed(
            entries.insert(key, ValueView { value, expires_at: expiry_of(stored_at, Some(ttl)) }),
            changes,
        )[key].value == value,
    decreases changes.len(),
{
    if changes.len() > 0 {
        let earlier = changes.drop_last();
        assert forall|i: int| 0 <= i < earlier.len() implies !(#[trigger] earlier[i]).touches(key)
            && (earlier[i] matches Change::Expired { now } ==> now < expiry(stored_at, ttl)) by {
            assert(earlier[i] == changes[i]);
        }
        timed_entry_stays(entries, key, value, stored_at, ttl, earlier);
        assert(!changes.last().touches(key));
        assert(changes.last() matches Change::Expired { now } ==> now < expiry(stored_at, ttl));
        timed_entry_kept(entries, key, value, stored_at, ttl, earlier);
    }
}

/// The second of expiry of what is stored under a key stays as it is, as
/// long as the key is neither stored again nor deleted.
proof fn timed_entry_kept(
    entries: Map<Seq<char>, ValueView>,
    key: Seq<char>,
    value: Seq<u8>,
    stored_at: u32,
    ttl: u32,
    changes: Seq<Change>,
)
    requires
        forall|i: int| 0 <= i < changes.len() ==> !(#[trigger] changes[i]).touches(key),
    ensures
        changed(
            entries.insert(key, ValueView { value, expires_at: expiry_of(stored_at, Some(ttl)) }),
            changes,
        ).dom().contains(key) ==> changed(
            entries.insert(key, ValueView { value, expires_at: expiry_of(stored_at, Some(ttl)) }),
            changes,
        )[key].expires_at == expiry_of(stored_at, Some(ttl)),
    decreases changes.len(),
{
    if changes.len() > 0 {
        let earlier = changes.drop_last();
        assert forall|i: int| 0 <= i < earlier.len() implies !(#[trigger] earlier[i]).touches(
            key,
        ) by {
            assert(earlier[i] == changes[i]);
        }
        timed_entry_kept(entries, key, value, stored_at, ttl, earlier);
        assert(!changes.last().touches(key));
    }
}

/// What is stored under a key at a second, to live for a number of seconds,
/// is gone once entries expire at the second at which its life ends, or at a
/// later one.
pub proof fn timed_entry_goes(
    entries: Map<Seq<char>, ValueView>,
    key: Seq<char>,
    value: Seq<u8>,
    stored_at: u32,
    ttl: u32,
    now: u32,
)
    requires
        expiry(stored_at, ttl) <= now,
    ensures
        !unexpired(
            entries.insert(key, ValueView { value, expires_at: expiry_of(stored_at, Some(ttl)) }),
            now,
        ).dom().contains(key),
{
}

/// The second at which a life ends is the sum of the second at which it
/// began and the seconds that it lasts, wherever that sum can be written,
/// and the last second that can be written elsewhere. It never lies before
/// the second at which the life began, nor behind that sum.
pub proof fn expiry_is_the_sum(stored_at: u32, ttl: u32)
    ensures
        stored_at + ttl <= u32::MAX ==> expiry(stored_at, ttl) == stored_at + ttl,
        stored_at + ttl > u32::MAX ==> expiry(stored_at, ttl) == u32::MAX,
        stored_at <= expiry(stored_at, ttl) <= stored_at + ttl,
{
}

} // verus!
