//! The choice sequences seen so far, as a tree.
//!
//! Where every choice has only a few possible values, the tree tells whether a
//! sequence is new and whether anything new is left at all.
use crate::choice::{choice_equal, Choice, ChoiceModel, Constraints};
use crate::data::{recorded, Node};
use crate::integer::Int;
use vstd::arithmetic::power::pow;
use vstd::prelude::*;

verus! {

/// An example with more choices than this is not kept.
pub const MAX_TRACKED_NODES: usize = 256;

/// No more choices than this are kept in a run.
pub const MAX_TOTAL_TRACKED_NODES: usize = 500_000;

/// One choice on the way: the value, and how many values it could have, if few.
#[derive(Debug)]
pub struct Step {
    pub value: Choice,
    pub max_children: Option<u64>,
}

/// The values of a way.
pub open spec fn way(seq: Seq<Step>) -> Seq<ChoiceModel> {
    seq.map_values(|s: Step| s.value@)
}

#[derive(Debug)]
pub struct TreeNode {
    pub keys: Vec<Choice>,
    pub children: Vec<TreeNode>,
    /// How many values the choice made here could have; unknown, or too many, if
    /// nothing.
    pub max_children: Option<u64>,
    /// A sequence ends here.
    pub terminal: bool,
}

/// Where `c` is among the keys, or their number where it is not.
pub open spec fn key_place(keys: Seq<Choice>, c: ChoiceModel) -> int
    decreases keys.len(),
{
    if keys.len() == 0 {
        0
    } else {
        let r = key_place(keys.drop_last(), c);
        if r == keys.len() - 1 && keys.last()@ != c {
            keys.len() as int
        } else {
            r
        }
    }
}

/// No key is there twice.
pub open spec fn keys_distinct(keys: Seq<Choice>) -> bool {
    forall|i: int, j: int|
        0 <= i < j < keys.len() ==> (#[trigger] keys[i])@ != (#[trigger] keys[j])@
}

proof fn lemma_key_place(keys: Seq<Choice>, c: ChoiceModel, n: int)
    requires
        0 <= n <= keys.len(),
        forall|k: int| 0 <= k < n ==> (#[trigger] keys[k])@ != c,
        n < keys.len() ==> keys[n]@ == c,
    ensures
        key_place(keys, c) == n,
    decreases keys.len(),
{
    if keys.len() > 0 {
        let front = keys.drop_last();
        assert forall|k: int| 0 <= k < n && k < front.len() implies (#[trigger] front[k])@ != c by {
            assert(front[k] == keys[k]);
        }
        if n == keys.len() {
            lemma_key_place(front, c, n - 1);
        } else {
            if n < front.len() {
                assert(front[n] == keys[n]);
            }
            lemma_key_place(front, c, n);
        }
    }
}

proof fn lemma_key_place_bounds(keys: Seq<Choice>, c: ChoiceModel)
    ensures
        0 <= key_place(keys, c) <= keys.len(),
        forall|k: int| 0 <= k < key_place(keys, c) ==> (#[trigger] keys[k])@ != c,
        key_place(keys, c) < keys.len() ==> keys[key_place(keys, c)]@ == c,
    decreases keys.len(),
{
    if keys.len() > 0 {
        let front = keys.drop_last();
        lemma_key_place_bounds(front, c);
        let r = key_place(front, c);
        assert forall|k: int| 0 <= k < key_place(keys, c) implies (#[trigger] keys[k])@ != c by {
            if k < front.len() {
                assert(front[k] == keys[k]);
            }
        }
        if r < front.len() {
            assert(front[r] == keys[r]);
        }
    }
}

impl TreeNode {
    /// Every key has its child, and none is there twice.
    pub open spec fn wf(&self) -> bool
        decreases self,
    {
        &&& self.keys@.len() == self.children@.len()
        &&& keys_distinct(self.keys@)
        &&& forall|i: int| 0 <= i < self.children@.len() ==> (#[trigger] self.children@[i]).wf()
    }

    /// Some sequence seen is exactly `seq`.
    pub open spec fn ends(&self, seq: Seq<ChoiceModel>) -> bool
        decreases seq.len(),
    {
        if seq.len() == 0 {
            self.terminal
        } else {
            let i = key_place(self.keys@, seq[0]);
            i < self.children@.len() && self.children@[i].ends(seq.drop_first())
        }
    }

    /// Nothing new is left below: every choice has taken all its values, down to the
    /// ends.
    pub open spec fn all_seen(&self) -> bool
        decreases self,
    {
        if self.children@.len() == 0 {
            self.terminal
        } else {
            &&& self.max_children is Some
            &&& self.children@.len() >= self.max_children->0
            &&& forall|i: int|
                0 <= i < self.children@.len() ==> (#[trigger] self.children@[i]).all_seen()
        }
    }

    /// Where the way `seq` leads, as far as it stays within the tree.
    pub open spec fn reached(&self, seq: Seq<ChoiceModel>) -> Option<TreeNode>
        decreases seq.len(),
    {
        if seq.len() == 0 {
            Some(*self)
        } else {
            let i = key_place(self.keys@, seq[0]);
            if 0 <= i < self.children@.len() {
                self.children@[i].reached(seq.drop_first())
            } else {
                None
            }
        }
    }

    pub fn new() -> (r: TreeNode)
        ensures
            r.wf(),
            forall|s: Seq<ChoiceModel>| !#[trigger] r.ends(s),
            r.children@.len() == 0,
            r.max_children is None,
    {
        TreeNode { keys: Vec::new(), children: Vec::new(), max_children: None, terminal: false }
    }

    fn find(&self, c: &Choice) -> (r: usize)
        ensures
            r == key_place(self.keys@, c@),
            r <= self.keys@.len(),
    {
        let mut i: usize = 0;
        while i < self.keys.len()
            invariant
                i <= self.keys.len(),
                forall|k: int| 0 <= k < i ==> (#[trigger] self.keys@[k])@ != c@,
            decreases self.keys.len() - i,
        {
            if choice_equal(&self.keys[i], c) {
                proof {
                    lemma_key_place(self.keys@, c@, i as int);
                }
                return i;
            }
            i = i + 1;
        }
        proof {
            lemma_key_place(self.keys@, c@, i as int);
        }
        i
    }

    /// Adds the way `seq` from position `from` on. The number of values that a choice
    /// could have is taken from the first way that knows it.
    pub fn add(&mut self, seq: &Vec<Step>, from: usize)
        requires
            old(self).wf(),
            from <= seq@.len(),
        ensures
            final(self).wf(),
            forall|s: Seq<ChoiceModel>| #[trigger]
                final(self).ends(s) <==> old(self).ends(s) || s == way(seq@.skip(from as int)),
            from < seq@.len() ==> final(self).max_children == (if old(self).max_children is None {
                seq@[from as int].max_children
            } else {
                old(self).max_children
            }),
            from == seq@.len() ==> final(self).children == old(self).children
                && final(self).max_children == old(self).max_children,
        decreases seq@.len() - from,
    {
        let ghost rest = way(seq@.skip(from as int));
        if from == seq.len() {
            self.terminal = true;
            proof {
                assert(rest.len() == 0);
                assert forall|s: Seq<ChoiceModel>| #[trigger] self.ends(s) <==> old(self).ends(s)
                    || s == rest by {
                    if s.len() == 0 {
                        assert(s =~= rest);
                    }
                }
            }
            return ;
        }
        let step = &seq[from];
        if self.max_children.is_none() {
            self.max_children = step.max_children;
        }
        let at: usize = self.find(&step.value);
        let fresh = TreeNode::new();
        let ghost empty = fresh;
        if at == self.keys.len() {
            self.keys.push(step.value.clone());
            self.children.push(fresh);
            proof {
                let before = old(self).keys@;
                let after = self.keys@;
                lemma_key_place_bounds(before, step.value@);
                assert(keys_distinct(after)) by {
                    assert forall|i: int, j: int| 0 <= i < j < after.len() implies (
                    #[trigger] after[i])@ != (#[trigger] after[j])@ by {
                        assert(after[i] == before[i]);
                        if j < before.len() {
                            assert(after[j] == before[j]);
                        }
                    }
                }
                assert forall|c: ChoiceModel| #[trigger] key_place(after, c) == (if c
                    == step.value@ {
                    at as int
                } else if key_place(before, c) == before.len() {
                    after.len() as int
                } else {
                    key_place(before, c)
                }) by {
                    assert(after.drop_last() =~= before);
                    lemma_key_place_bounds(before, c);
                }
            }
        }
        let ghost middle = *self;
        proof {
            assert forall|i: int| 0 <= i < middle.children@.len() implies (
            #[trigger] middle.children@[i]).wf() by {
                if i < old(self).children@.len() {
                    assert(middle.children@[i] == old(self).children@[i]);
                }
            }
            assert forall|s: Seq<ChoiceModel>| #[trigger] middle.ends(s) <==> old(self).ends(
                s,
            ) by {
                if s.len() > 0 {
                    lemma_key_place_bounds(old(self).keys@, s[0]);
                    lemma_key_place_bounds(middle.keys@, s[0]);
                    let i = key_place(middle.keys@, s[0]);
                    if i < old(self).children@.len() {
                        assert(middle.children@[i] == old(self).children@[i]);
                    } else if i < middle.children@.len() {
                        assert(middle.children@[i] == empty);
                        assert(!empty.ends(s.drop_first()));
                    }
                }
            }
        }
        self.children[at].add(seq, from + 1);
        proof {
            let tail = way(seq@.skip(from + 1));
            assert(rest.drop_first() =~= tail);
            assert(rest[0] == step.value@);
            lemma_key_place_bounds(middle.keys@, step.value@);
            assert forall|i: int| 0 <= i < self.children@.len() implies (
            #[trigger] self.children@[i]).wf() by {
                if i != at {
                    assert(self.children@[i] == middle.children@[i]);
                }
            }
            assert forall|s: Seq<ChoiceModel>| #[trigger] self.ends(s) <==> old(self).ends(s) || s
                == rest by {
                assert(middle.ends(s) <==> old(self).ends(s));
                if s.len() > 0 {
                    let i = key_place(self.keys@, s[0]);
                    lemma_key_place_bounds(self.keys@, s[0]);
                    if i == at && i < self.children@.len() {
                        assert(self.children@[i].ends(s.drop_first())
                            <==> middle.children@[i].ends(s.drop_first()) || s.drop_first()
                            == tail);
                        if s.drop_first() == tail {
                            assert(s =~= seq![s[0]] + s.drop_first());
                            assert(rest =~= seq![rest[0]] + rest.drop_first());
                        }
                    } else if i < self.children@.len() {
                        assert(self.children@[i] == middle.children@[i]);
                    }
                }
            }
        }
    }

    /// Whether the way `seq` from position `from` on has been seen.
    pub fn has_terminal(&self, seq: &Vec<Step>, from: usize) -> (r: bool)
        requires
            self.wf(),
            from <= seq@.len(),
        ensures
            r == self.ends(way(seq@.skip(from as int))),
        decreases seq@.len() - from,
    {
        let ghost rest = way(seq@.skip(from as int));
        if from == seq.len() {
            return self.terminal;
        }
        proof {
            assert(rest.drop_first() =~= way(seq@.skip(from + 1)));
            assert(rest[0] == seq@[from as int].value@);
        }
        let at: usize = self.find(&seq[from].value);
        if at < self.children.len() {
            self.children[at].has_terminal(seq, from + 1)
        } else {
            false
        }
    }

    /// Whether nothing new is left.
    pub fn exhausted(&self) -> (r: bool)
        ensures
            r == self.all_seen(),
        decreases self,
    {
        if self.children.len() == 0 {
            return self.terminal;
        }
        match self.max_children {
            Some(m) => {
                if (self.children.len() as u64) < m {
                    return false;
                }
            },
            None => {
                return false;
            },
        }
        let mut i: usize = 0;
        while i < self.children.len()
            invariant
                i <= self.children.len(),
                forall|k: int| 0 <= k < i ==> (#[trigger] self.children@[k]).all_seen(),
            decreases self.children.len() - i,
        {
            if !self.children[i].exhausted() {
                return false;
            }
            i = i + 1;
        }
        true
    }
}

/// How many values a choice can have, where they are at most 256.
pub open spec fn few_values(k: Constraints) -> Option<u64> {
    match k {
        Constraints::Boolean { .. } => Some(2),
        Constraints::Integer { min_value: Some(mn), max_value: Some(mx), .. } => {
            let far = pow(2, 127);
            if -far <= mn@ < far && -far <= mx@ < far && 1 <= mx@ - mn@ + 1 <= 256 {
                Some((mx@ - mn@ + 1) as u64)
            } else {
                None
            }
        },
        _ => None,
    }
}

pub fn choice_max_children(k: &Constraints) -> (r: Option<u64>)
    ensures
        r == few_values(*k),
{
    match k {
        Constraints::Boolean { .. } => Some(2),
        Constraints::Integer { min_value: Some(mn), max_value: Some(mx), .. } => {
            let far = Int::of(2).power(127);
            let near = far.negated();
            if mn.less(&near) || !mn.less(&far) || mx.less(&near) || !mx.less(&far) {
                return None;
            }
            match mx.minus(mn).plus(&Int::of(1)).to_u64() {
                Some(n) => if 1 <= n && n <= 256 {
                    Some(n)
                } else {
                    None
                },
                None => None,
            }
        },
        _ => None,
    }
}

/// `seq` is the way that the nodes took.
pub open spec fn way_of_nodes(seq: Seq<Step>, nodes: Seq<Node>) -> bool {
    &&& seq.len() == nodes.len()
    &&& forall|i: int|
        0 <= i < seq.len() ==> (#[trigger] seq[i]).value@ == nodes[i].value@
            && seq[i].max_children == few_values(nodes[i].constraints)
}

/// The way that the nodes took.
pub fn node_seq(nodes: &Vec<Node>) -> (r: Vec<Step>)
    ensures
        way_of_nodes(r@, nodes@),
{
    let mut out: Vec<Step> = Vec::new();
    let mut i: usize = 0;
    while i < nodes.len()
        invariant
            i <= nodes.len(),
            out@.len() == i,
            forall|k: int|
                0 <= k < i ==> (#[trigger] out@[k]).value@ == nodes@[k].value@
                    && out@[k].max_children == few_values(nodes@[k].constraints),
        decreases nodes.len() - i,
    {
        out.push(
            Step {
                value: nodes[i].value.clone(),
                max_children: choice_max_children(&nodes[i].constraints),
            },
        );
        i = i + 1;
    }
    out
}

/// The examples of a run, as long as they stay few and small.
#[derive(Debug)]
pub struct Tracker {
    pub on: bool,
    pub tree: TreeNode,
    pub tracked_nodes: usize,
}

/// Every choice has few values.
pub open spec fn all_finite(nodes: Seq<Node>) -> bool {
    forall|i: int| 0 <= i < nodes.len() ==> few_values((#[trigger] nodes[i]).constraints) is Some
}

impl Tracker {
    pub open spec fn wf(&self) -> bool {
        self.tree.wf() && (self.on ==> self.tracked_nodes <= MAX_TOTAL_TRACKED_NODES)
    }

    pub fn new() -> (r: Tracker)
        ensures
            r.wf(),
            r.on,
            r.tracked_nodes == 0,
            forall|s: Seq<ChoiceModel>| !#[trigger] r.tree.ends(s),
    {
        Tracker { on: true, tree: TreeNode::new(), tracked_nodes: 0 }
    }

    /// Notes an example. One that is too large, or that made a choice with too many
    /// values, ends the tracking: there is then always something new.
    pub fn track_example(&mut self, nodes: &Vec<Node>)
        requires
            old(self).wf(),
        ensures
            final(self).wf(),
            !old(self).on ==> *final(self) == *old(self),
            old(self).on && (nodes@.len() > MAX_TRACKED_NODES || !all_finite(nodes@)) ==> !final(
                self).on && final(self).tree == old(self).tree,
            old(self).on && nodes@.len() <= MAX_TRACKED_NODES && all_finite(nodes@) ==> {
                &&& forall|s: Seq<ChoiceModel>| #[trigger]
                    final(self).tree.ends(s) <==> old(self).tree.ends(s) || s == recorded(nodes@)
                &&& final(self).tracked_nodes == old(self).tracked_nodes + nodes@.len()
                &&& final(self).on <==> final(self).tracked_nodes <= MAX_TOTAL_TRACKED_NODES
            },
    {
        if !self.on {
            return ;
        }
        if nodes.len() > MAX_TRACKED_NODES {
            self.on = false;
            return ;
        }
        let seq = node_seq(nodes);
        let mut i: usize = 0;
        while i < seq.len()
            invariant
                i <= seq.len(),
                way_of_nodes(seq@, nodes@),
                *self == *old(self),
                old(self).wf(),
                old(self).on,
                nodes@.len() <= MAX_TRACKED_NODES,
                forall|k: int| 0 <= k < i ==> few_values((#[trigger] nodes@[k]).constraints) is Some,
            decreases seq.len() - i,
        {
            if seq[i].max_children.is_none() {
                proof {
                    assert(few_values(nodes@[i as int].constraints) is None);
                }
                self.on = false;
                return ;
            }
            i = i + 1;
        }
        proof {
            assert(way(seq@.skip(0)) =~= recorded(nodes@));
        }
        self.tree.add(&seq, 0);
        self.tracked_nodes = self.tracked_nodes + seq.len();
        if self.tracked_nodes > MAX_TOTAL_TRACKED_NODES {
            self.on = false;
        }
    }

    /// Whether exactly these choices have been made before.
    pub fn is_redundant(&self, nodes: &Vec<Node>) -> (r: bool)
        requires
            self.wf(),
        ensures
            r == (self.on && self.tree.ends(recorded(nodes@))),
    {
        if !self.on {
            return false;
        }
        let seq = node_seq(nodes);
        proof {
            assert(way(seq@.skip(0)) =~= recorded(nodes@));
        }
        self.tree.has_terminal(&seq, 0)
    }

    /// Whether nothing new is left to try.
    pub fn exhausted(&self) -> (r: bool)
        ensures
            r == (self.on && self.tree.all_seen()),
    {
        self.on && self.tree.exhausted()
    }
}

// ---- laws -------------------------------------------------------------------

/// In a tree that has seen everything, every way that stays within it leads to a
/// place that has seen everything; and where the tree ends, a sequence ended.
pub proof fn all_seen_holds_everywhere(tree: TreeNode, seq: Seq<ChoiceModel>)
    requires
        tree.all_seen(),
        tree.reached(seq) is Some,
    ensures
        tree.reached(seq)->0.all_seen(),
        tree.reached(seq)->0.children@.len() == 0 ==> tree.ends(seq),
    decreases seq.len(),
{
    if seq.len() > 0 {
        let i = key_place(tree.keys@, seq[0]);
        all_seen_holds_everywhere(tree.children@[i], seq.drop_first());
    }
}

/// A test as the tree sees it: after each run of answers it asks for a choice under
/// some constraints, or ends. `tree` is a record of such a test from `so_far` on.
pub open spec fn records(
    tree: TreeNode,
    asks: spec_fn(Seq<ChoiceModel>) -> Option<Constraints>,
    so_far: Seq<ChoiceModel>,
) -> bool
    decreases tree,
{
    if tree.children@.len() == 0 {
        tree.terminal ==> asks(so_far) is None
    } else {
        &&& asks(so_far) is Some
        &&& tree.max_children == few_values(asks(so_far)->0)
        &&& forall|i: int|
            0 <= i < tree.children@.len() ==> records(
                #[trigger] tree.children@[i],
                asks,
                so_far.push(tree.keys@[i]@),
            )
        &&& forall|i: int|
            0 <= i < tree.keys@.len() ==> asks(so_far)->0.permits((#[trigger] tree.keys@[i])@)
    }
}

/// `seq` is a whole run of a test from `so_far` on: every answer is permitted, and the
/// test ends behind the last one.
pub open spec fn is_run(
    asks: spec_fn(Seq<ChoiceModel>) -> Option<Constraints>,
    so_far: Seq<ChoiceModel>,
    seq: Seq<ChoiceModel>,
) -> bool
    decreases seq.len(),
{
    if seq.len() == 0 {
        asks(so_far) is None
    } else {
        asks(so_far) is Some && asks(so_far)->0.permits(seq[0]) && is_run(
            asks,
            so_far.push(seq[0]),
            seq.drop_first(),
        )
    }
}

/// A choice that has taken as many different values as it can has taken each of them.
pub proof fn full_choice_has_every_value(keys: Seq<Choice>, k: Constraints, c: ChoiceModel)
    requires
        keys_distinct(keys),
        few_values(k) is Some,
        keys.len() >= few_values(k)->0,
        forall|i: int| 0 <= i < keys.len() ==> k.permits((#[trigger] keys[i])@),
        k.permits(c),
    ensures
        key_place(keys, c) < keys.len(),
{
    lemma_key_place_bounds(keys, c);
    if key_place(keys, c) == keys.len() {
        assert forall|i: int| 0 <= i < keys.len() implies (#[trigger] keys[i])@ != c by {}
        match k {
            Constraints::Boolean { .. } => {
                assert(keys[0]@ != keys[1]@);
                assert(keys[0]@ is Boolean && keys[1]@ is Boolean && c is Boolean);
                assert(keys[0]@ != c && keys[1]@ != c);
            },
            Constraints::Integer { min_value, max_value, .. } => {
                let lo = min_value->0@;
                let hi = max_value->0@;
                let numbers = Seq::new(keys.len(), |i: int| keys[i]@->Integer_0);
                let all = numbers.push(c->Integer_0);
                assert(all.no_duplicates()) by {
                    assert forall|i: int, j: int|
                        0 <= i < all.len() && 0 <= j < all.len() && i != j implies all[i]
                        != all[j] by {
                        if i < keys.len() {
                            assert(keys[i]@ is Integer);
                            assert(keys[i]@ != c);
                        }
                        if j < keys.len() {
                            assert(keys[j]@ is Integer);
                            assert(keys[j]@ != c);
                        }
                        if i < keys.len() && j < keys.len() {
                            if i < j {
                                assert(keys[i]@ != keys[j]@);
                            } else {
                                assert(keys[j]@ != keys[i]@);
                            }
                        }
                    }
                }
                all.unique_seq_to_set();
                vstd::set_lib::lemma_int_range(lo, hi + 1);
                let range = vstd::set_lib::set_int_range(lo, hi + 1);
                assert(all.to_set().subset_of(range)) by {
                    assert forall|v: int| all.to_set().contains(v) implies range.contains(v) by {
                        let i = choose|i: int| 0 <= i < all.len() && all[i] == v;
                        if i < keys.len() {
                            assert(k.permits(keys[i]@));
                        }
                    }
                }
                vstd::set_lib::lemma_len_subset(all.to_set(), range);
            },
            _ => {},
        }
    }
}

/// Where a test asks for the same choices after the same answers, a record of it that
/// has seen everything holds every run that the test can make.
pub proof fn exhausted_record_holds_every_run(
    tree: TreeNode,
    asks: spec_fn(Seq<ChoiceModel>) -> Option<Constraints>,
    so_far: Seq<ChoiceModel>,
    seq: Seq<ChoiceModel>,
)
    requires
        tree.wf(),
        tree.all_seen(),
        records(tree, asks, so_far),
        is_run(asks, so_far, seq),
    ensures
        tree.ends(seq),
    decreases seq.len(),
{
    if seq.len() > 0 {
        assert(tree.children@.len() > 0);
        full_choice_has_every_value(tree.keys@, asks(so_far)->0, seq[0]);
        lemma_key_place_bounds(tree.keys@, seq[0]);
        let i = key_place(tree.keys@, seq[0]);
        assert(tree.children@[i].all_seen());
        assert(records(tree.children@[i], asks, so_far.push(tree.keys@[i]@)));
        exhausted_record_holds_every_run(
            tree.children@[i],
            asks,
            so_far.push(seq[0]),
            seq.drop_first(),
        );
    }
}

} // verus!
