//! An example database that lives in memory.
//!
//! Under every key there is a set of byte strings; fetching a key gives its
//! strings in ascending order.
use crate::choice::{copy_bytes, same_bytes};
use vstd::prelude::*;

verus! {

/// The order of byte strings: by the first byte that differs, a prefix before
/// anything that extends it.
pub open spec fn bytes_less(a: Seq<u8>, b: Seq<u8>) -> bool
    decreases a.len(),
{
    if b.len() == 0 {
        false
    } else if a.len() == 0 {
        true
    } else if a[0] == b[0] {
        bytes_less(a.drop_first(), b.drop_first())
    } else {
        a[0] < b[0]
    }
}

proof fn lemma_bytes_total(a: Seq<u8>, b: Seq<u8>)
    ensures
        !bytes_less(a, a),
        a == b || bytes_less(a, b) || bytes_less(b, a),
        !(bytes_less(a, b) && bytes_less(b, a)),
    decreases a.len(),
{
    if a.len() > 0 && b.len() > 0 {
        lemma_bytes_total(a.drop_first(), b.drop_first());
        if a[0] == b[0] && a.drop_first() == b.drop_first() {
            assert(a =~= seq![a[0]] + a.drop_first());
            assert(b =~= seq![b[0]] + b.drop_first());
        }
    } else if a.len() == 0 && b.len() == 0 {
        assert(a =~= b);
    } else if a.len() > 0 {
        lemma_bytes_total(a.drop_first(), a.drop_first());
    }
}

/// Of two byte strings at most one comes before the other.
pub proof fn bytes_order_is_asymmetric(a: Seq<u8>, b: Seq<u8>)
    ensures
        !(bytes_less(a, b) && bytes_less(b, a)),
{
    lemma_bytes_total(a, b);
}

/// The order of byte strings is transitive.
pub proof fn bytes_order_is_transitive(a: Seq<u8>, b: Seq<u8>, c: Seq<u8>)
    requires
        bytes_less(a, b),
        bytes_less(b, c),
    ensures
        bytes_less(a, c),
    decreases a.len(),
{
    if a.len() > 0 && a[0] == b[0] && b[0] == c[0] {
        bytes_order_is_transitive(a.drop_first(), b.drop_first(), c.drop_first());
    }
}

/// Whether `a` comes before `b`.
pub fn bytes_before(a: &Vec<u8>, b: &Vec<u8>) -> (r: bool)
    ensures
        r == bytes_less(a@, b@),
{
    let mut i: usize = 0;
    proof {
        assert(a@.skip(0) =~= a@);
        assert(b@.skip(0) =~= b@);
    }
    while i < a.len() && i < b.len()
        invariant
            i <= a.len(),
            i <= b.len(),
            bytes_less(a@, b@) == bytes_less(a@.skip(i as int), b@.skip(i as int)),
        decreases a.len() - i,
    {
        proof {
            assert(a@.skip(i as int)[0] == a@[i as int]);
            assert(b@.skip(i as int)[0] == b@[i as int]);
            assert(a@.skip(i as int).drop_first() =~= a@.skip(i + 1));
            assert(b@.skip(i as int).drop_first() =~= b@.skip(i + 1));
        }
        if a[i] != b[i] {
            return a[i] < b[i];
        }
        i = i + 1;
    }
    i < b.len()
}

/// The byte strings ascend, none of them twice.
pub open spec fn values_ascend(s: Seq<Vec<u8>>) -> bool {
    forall|i: int, j: int|
        0 <= i < j < s.len() ==> bytes_less((#[trigger] s[i])@, (#[trigger] s[j])@)
}

/// One of the byte strings is `v`.
pub open spec fn lists(s: Seq<Vec<u8>>, v: Seq<u8>) -> bool {
    exists|i: int| 0 <= i < s.len() && (#[trigger] s[i])@ == v
}

/// What is stored under one key.
#[derive(Debug)]
pub struct Entry {
    pub key: Vec<u8>,
    pub values: Vec<Vec<u8>>,
}

#[derive(Debug)]
pub struct InMemoryExampleDatabase {
    pub entries: Vec<Entry>,
}

fn insert_value(values: &mut Vec<Vec<u8>>, value: &Vec<u8>)
    requires
        values_ascend(old(values)@),
    ensures
        values_ascend(final(values)@),
        forall|v: Seq<u8>| #[trigger]
            lists(final(values)@, v) <==> lists(old(values)@, v) || v == value@,
{
    let ghost before = values@;
    let mut i: usize = 0;
    while i < values.len() && bytes_before(&values[i], value)
        invariant
            i <= values.len(),
            values@ == before,
            forall|k: int| 0 <= k < i ==> bytes_less((#[trigger] before[k])@, value@),
        decreases values.len() - i,
    {
        i = i + 1;
    }
    if i < values.len() && same_bytes(&values[i], value) {
        return ;
    }
    values.insert(i, copy_bytes(value));
    proof {
        let after = values@;
        let new = after[i as int];
        if i < before.len() {
            lemma_bytes_total(before[i as int]@, value@);
        }
        assert forall|a: int, b: int| 0 <= a < b < after.len() implies bytes_less(
            (#[trigger] after[a])@,
            (#[trigger] after[b])@,
        ) by {
            if a < i {
                assert(after[a] == before[a]);
                if b < i {
                    assert(after[b] == before[b]);
                } else if b > i {
                    assert(after[b] == before[b - 1]);
                }
            } else if a == i {
                assert(after[b] == before[b - 1]);
                if b - 1 > i {
                    assert(bytes_less(before[i as int]@, before[b - 1]@));
                    bytes_order_is_transitive(value@, before[i as int]@, before[b - 1]@);
                }
            } else {
                assert(after[a] == before[a - 1]);
                assert(after[b] == before[b - 1]);
            }
        }
        assert forall|v: Seq<u8>| #[trigger] lists(after, v) <==> lists(before, v) || v
            == value@ by {
            if lists(after, v) {
                let k = choose|k: int| 0 <= k < after.len() && (#[trigger] after[k])@ == v;
                if k < i {
                    assert(before[k]@ == v);
                } else if k > i {
                    assert(before[k - 1]@ == v);
                }
            }
            if lists(before, v) {
                let k = choose|k: int| 0 <= k < before.len() && (#[trigger] before[k])@ == v;
                if k < i {
                    assert(after[k]@ == v);
                } else {
                    assert(after[k + 1]@ == v);
                }
            }
            assert(after[i as int]@ == value@);
        }
    }
}

fn remove_value(values: &mut Vec<Vec<u8>>, value: &Vec<u8>)
    requires
        values_ascend(old(values)@),
    ensures
        values_ascend(final(values)@),
        forall|v: Seq<u8>| #[trigger]
            lists(final(values)@, v) <==> lists(old(values)@, v) && v != value@,
{
    let ghost before = values@;
    let mut i: usize = 0;
    while i < values.len()
        invariant
            i <= values.len(),
            values@ == before,
            values_ascend(before),
            before == old(values)@,
            forall|k: int| 0 <= k < i ==> (#[trigger] before[k])@ != value@,
        decreases values.len() - i,
    {
        if same_bytes(&values[i], value) {
            let _ = values.remove(i);
            proof {
                let after = values@;
                assert forall|a: int, b: int| 0 <= a < b < after.len() implies bytes_less(
                    (#[trigger] after[a])@,
                    (#[trigger] after[b])@,
                ) by {
                    let x = if a < i {
                        a
                    } else {
                        a + 1
                    };
                    let y = if b < i {
                        b
                    } else {
                        b + 1
                    };
                    assert(after[a] == before[x]);
                    assert(after[b] == before[y]);
                }
                assert forall|v: Seq<u8>| #[trigger] lists(after, v) <==> lists(before, v) && v
                    != value@ by {
                    if lists(after, v) {
                        let k = choose|k: int| 0 <= k < after.len() && (#[trigger] after[k])@ == v;
                        let x = if k < i {
                            k
                        } else {
                            k + 1
                        };
                        assert(after[k] == before[x]);
                        if x < i {
                            assert(bytes_less(before[x]@, before[i as int]@));
                        } else {
                            assert(bytes_less(before[i as int]@, before[x]@));
                        }
                        lemma_bytes_total(v, v);
                    }
                    if lists(before, v) && v != value@ {
                        let k = choose|k: int| 0 <= k < before.len() && (#[trigger] before[k])@ == v;
                        if k < i {
                            assert(after[k]@ == v);
                        } else {
                            assert(after[k - 1]@ == v);
                        }
                    }
                }
            }
            return ;
        }
        i = i + 1;
    }
}

impl InMemoryExampleDatabase {
    /// No key has two entries, and the strings of each entry ascend.
    pub open spec fn wf(&self) -> bool {
        &&& forall|i: int, j: int|
            0 <= i < j < self.entries@.len() ==> (#[trigger] self.entries@[i]).key@ != (
            #[trigger] self.entries@[j]).key@
        &&& forall|i: int|
            0 <= i < self.entries@.len() ==> values_ascend((#[trigger] self.entries@[i]).values@)
    }

    /// `value` is stored under `key`.
    pub open spec fn has(&self, key: Seq<u8>, value: Seq<u8>) -> bool {
        exists|i: int|
            0 <= i < self.entries@.len() && (#[trigger] self.entries@[i]).key@ == key && lists(
                self.entries@[i].values@,
                value,
            )
    }

    pub fn new() -> (r: InMemoryExampleDatabase)
        ensures
            r.wf(),
            forall|k: Seq<u8>, v: Seq<u8>| !#[trigger] r.has(k, v),
    {
        InMemoryExampleDatabase { entries: Vec::new() }
    }

    /// Where the entry of `key` is, if there is one.
    fn position(&self, key: &Vec<u8>) -> (r: Option<usize>)
        ensures
            match r {
                Some(i) => i < self.entries@.len() && self.entries@[i as int].key@ == key@,
                None => forall|i: int|
                    0 <= i < self.entries@.len() ==> (#[trigger] self.entries@[i]).key@ != key@,
            },
    {
        let mut i: usize = 0;
        while i < self.entries.len()
            invariant
                i <= self.entries.len(),
                forall|k: int| 0 <= k < i ==> (#[trigger] self.entries@[k]).key@ != key@,
            decreases self.entries.len() - i,
        {
            if same_bytes(&self.entries[i].key, key) {
                return Some(i);
            }
            i = i + 1;
        }
        None
    }

    /// Stores `value` under `key`.
    pub fn save(&mut self, key: &Vec<u8>, value: &Vec<u8>)
        requires
            old(self).wf(),
        ensures
            final(self).wf(),
            forall|k: Seq<u8>, v: Seq<u8>| #[trigger]
                final(self).has(k, v) <==> old(self).has(k, v) || (k == key@ && v == value@),
    {
        let at = match self.position(key) {
            Some(i) => i,
            None => {
                self.entries.push(Entry { key: copy_bytes(key), values: Vec::new() });
                self.entries.len() - 1
            },
        };
        let ghost middle = *self;
        proof {
            assert(forall|v: Seq<u8>| old(self).entries@.len() == at ==> !lists(
                middle.entries@[at as int].values@,
                v,
            ));
            assert forall|k: Seq<u8>, v: Seq<u8>| #[trigger] middle.has(k, v) <==> old(self).has(
                k,
                v,
            ) by {
                if middle.has(k, v) {
                    let i = choose|i: int|
                        0 <= i < middle.entries@.len() && (#[trigger] middle.entries@[i]).key@ == k
                            && lists(middle.entries@[i].values@, v);
                    assert(old(self).entries@[i].key@ == k);
                }
                if old(self).has(k, v) {
                    let i = choose|i: int|
                        0 <= i < old(self).entries@.len() && (#[trigger] old(
                            self).entries@[i]).key@ == k && lists(
                            old(self).entries@[i].values@,
                            v,
                        );
                    assert(middle.entries@[i].key@ == k);
                }
            }
        }
        insert_value(&mut self.entries[at].values, value);
        proof {
            lemma_only_entry_changed(middle, *self, at as int);
            assert forall|k: Seq<u8>, v: Seq<u8>| #[trigger] self.has(k, v) <==> middle.has(k, v)
                || (k == key@ && v == value@) by {
                if self.has(k, v) {
                    let i = choose|i: int|
                        0 <= i < self.entries@.len() && (#[trigger] self.entries@[i]).key@ == k
                            && lists(self.entries@[i].values@, v);
                    assert(middle.entries@[i].key@ == k);
                    if i == at {
                        assert(lists(middle.entries@[i].values@, v) || v == value@);
                    }
                }
                if middle.has(k, v) {
                    let i = choose|i: int|
                        0 <= i < middle.entries@.len() && (#[trigger] middle.entries@[i]).key@ == k
                            && lists(middle.entries@[i].values@, v);
                    assert(self.entries@[i].key@ == k);
                }
                if k == key@ && v == value@ {
                    assert(self.entries@[at as int].key@ == k);
                }
            }
        }
    }

    /// Removes `value` from under `key`, if it is there.
    pub fn delete(&mut self, key: &Vec<u8>, value: &Vec<u8>)
        requires
            old(self).wf(),
        ensures
            final(self).wf(),
            forall|k: Seq<u8>, v: Seq<u8>| #[trigger]
                final(self).has(k, v) <==> old(self).has(k, v) && !(k == key@ && v == value@),
    {
        if let Some(at) = self.position(key) {
            let ghost middle = *self;
            remove_value(&mut self.entries[at].values, value);
            proof {
                lemma_only_entry_changed(middle, *self, at as int);
                assert forall|k: Seq<u8>, v: Seq<u8>| #[trigger] self.has(k, v) <==> middle.has(
                    k,
                    v,
                ) && !(k == key@ && v == value@) by {
                    if self.has(k, v) {
                        let i = choose|i: int|
                            0 <= i < self.entries@.len() && (#[trigger] self.entries@[i]).key@ == k
                                && lists(self.entries@[i].values@, v);
                        assert(middle.entries@[i].key@ == k);
                        if i == at {
                            assert(lists(middle.entries@[i].values@, v) && v != value@);
                        } else if i < at {
                            assert(middle.entries@[i].key@ != middle.entries@[at as int].key@);
                        } else {
                            assert(middle.entries@[at as int].key@ != middle.entries@[i].key@);
                        }
                    }
                    if middle.has(k, v) && !(k == key@ && v == value@) {
                        let i = choose|i: int|
                            0 <= i < middle.entries@.len() && (#[trigger] middle.entries@[i]).key@
                                == k && lists(middle.entries@[i].values@, v);
                        assert(self.entries@[i].key@ == k);
                    }
                }
            }
        }
    }

    /// What is stored under `key`, in ascending order.
    pub fn fetch(&self, key: &Vec<u8>) -> (r: Vec<Vec<u8>>)
        requires
            self.wf(),
        ensures
            values_ascend(r@),
            forall|v: Seq<u8>| #[trigger] lists(r@, v) <==> self.has(key@, v),
    {
        let mut out: Vec<Vec<u8>> = Vec::new();
        if let Some(at) = self.position(key) {
            let values = &self.entries[at].values;
            let mut i: usize = 0;
            while i < values.len()
                invariant
                    i <= values.len(),
                    out.len() == i,
                    forall|k: int| 0 <= k < i ==> (#[trigger] out@[k])@ == values@[k]@,
                decreases values.len() - i,
            {
                out.push(copy_bytes(&values[i]));
                i = i + 1;
            }
            proof {
                let s = values@;
                assert forall|a: int, b: int| 0 <= a < b < out@.len() implies bytes_less(
                    (#[trigger] out@[a])@,
                    (#[trigger] out@[b])@,
                ) by {
                    assert(bytes_less(s[a]@, s[b]@));
                }
                assert forall|v: Seq<u8>| #[trigger] lists(out@, v) <==> self.has(key@, v) by {
                    if lists(out@, v) {
                        let k = choose|k: int| 0 <= k < out@.len() && (#[trigger] out@[k])@ == v;
                        assert(s[k]@ == v);
                        assert(self.entries@[at as int].key@ == key@);
                    }
                    if self.has(key@, v) {
                        let j = choose|j: int|
                            0 <= j < self.entries@.len() && (#[trigger] self.entries@[j]).key@
                                == key@ && lists(self.entries@[j].values@, v);
                        if j < at {
                            assert(self.entries@[j].key@ != self.entries@[at as int].key@);
                        } else if j > at {
                            assert(self.entries@[at as int].key@ != self.entries@[j].key@);
                        }
                        let k = choose|k: int| 0 <= k < s.len() && (#[trigger] s[k])@ == v;
                        assert(out@[k]@ == v);
                    }
                }
            }
        }
        out
    }

    /// Moves `value` from under `src` to under `dest`, where it ends up even if it was
    /// not under `src`.
    pub fn move_value(&mut self, src: &Vec<u8>, dest: &Vec<u8>, value: &Vec<u8>)
        requires
            old(self).wf(),
        ensures
            final(self).wf(),
            forall|k: Seq<u8>, v: Seq<u8>| #[trigger]
                final(self).has(k, v) <==> (k == dest@ && v == value@) || (old(self).has(k, v)
                    && !(k == src@ && v == value@)),
    {
        if same_bytes(src, dest) {
            self.save(dest, value);
            return ;
        }
        self.delete(src, value);
        self.save(dest, value);
    }
}

proof fn lemma_only_entry_changed(
    a: InMemoryExampleDatabase,
    b: InMemoryExampleDatabase,
    at: int,
)
    requires
        0 <= at < a.entries@.len(),
        a.wf(),
        b.entries@.len() == a.entries@.len(),
        b.entries@ == a.entries@.update(at, b.entries@[at]),
        b.entries@[at].key == a.entries@[at].key,
        values_ascend(b.entries@[at].values@),
    ensures
        b.wf(),
        forall|i: int| 0 <= i < a.entries@.len() ==> (#[trigger] b.entries@[i]).key == a.entries@[i].key,
        forall|i: int|
            0 <= i < a.entries@.len() && i != at ==> (#[trigger] b.entries@[i]) == a.entries@[i],
{
    assert forall|i: int, j: int| 0 <= i < j < b.entries@.len() implies (
    #[trigger] b.entries@[i]).key@ != (#[trigger] b.entries@[j]).key@ by {
        assert(a.entries@[i].key@ != a.entries@[j].key@);
    }
    assert forall|i: int| 0 <= i < b.entries@.len() implies values_ascend(
        (#[trigger] b.entries@[i]).values@,
    ) by {
        if i != at {
            assert(b.entries@[i] == a.entries@[i]);
        }
    }
}

} // verus!
