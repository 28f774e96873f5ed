//! One test case while it runs.
//!
//! Strategies draw typed choices from a [`ConjectureData`], which keeps a [`Case`]
//! in good order. Each observed draw
//! records a node. With a prefix the recorded choices are played back, which is
//! what shrinking and saved examples rely on; a choice that does not fit where it
//! is asked for is replaced by the simplest one.
use crate::choice::{
    choice_at, choice_index_of, choice_permitted, Choice, ChoiceError, ChoiceModel, Constraints,
};
use crate::codec::{capped, encoded, one_choice_size};
use crate::floats::{
    clamping_stays_within_bounds, float_clamp, float_clamped, float_le, le, FloatBounds, ONE, SIGN,
};
use crate::integer::Int;
use crate::intervalset::{
    from_shrink_order, nth, ordinal, position_survives_its_member, shrink_order_is_a_bijection,
    shrink_order_marks_are_ordered, to_shrink_order, total, IntervalSet,
};
use crate::ordering::{
    bound, clamp_shrink_towards, clamped, letters_value, shorter_count_grows, BUFFER_SIZE,
};
use crate::provider::{
    came_up, float_bounds_ordered, generator_of, provider_sample, respects, satisfiable, seeded,
    weights_within, Numerics,
};
use rand::rngs::StdRng;
use vstd::prelude::*;

verus! {

/// How a test case ended, from worst to best.
#[derive(Clone, Copy, Debug, PartialEq, Eq, Structural)]
pub enum Status {
    /// It ran out of room for choices.
    Overrun,
    /// It was rejected.
    Invalid,
    Valid,
    /// It failed in a way worth reporting.
    Interesting,
}

impl Status {
    /// The place of a status among the others, from worst to best.
    pub open spec fn rank(self) -> u8 {
        match self {
            Status::Overrun => 0,
            Status::Invalid => 1,
            Status::Valid => 2,
            Status::Interesting => 3,
        }
    }

    pub fn code(self) -> (r: u8)
        ensures
            r == self.rank(),
    {
        match self {
            Status::Overrun => 0,
            Status::Invalid => 1,
            Status::Valid => 2,
            Status::Interesting => 3,
        }
    }

    /// The status at a place, where there is one.
    pub fn of_code(code: u8) -> (r: Option<Status>)
        ensures
            r is Some <==> code <= 3,
            r is Some ==> r->0.rank() == code,
    {
        match code {
            0 => Some(Status::Overrun),
            1 => Some(Status::Invalid),
            2 => Some(Status::Valid),
            3 => Some(Status::Interesting),
            _ => None,
        }
    }
}

/// One step in the record of spans.
#[derive(Clone, Copy, Debug, PartialEq, Eq, Structural)]
pub enum Trail {
    /// A span with the label of this number starts.
    Start(usize),
    /// A choice is made.
    Choice,
    /// The innermost span ends.
    Stop { discard: bool },
}

/// One recorded choice.
#[derive(Debug)]
pub struct Node {
    pub value: Choice,
    pub constraints: Constraints,
    pub was_forced: bool,
}

/// What to answer a draw with when replaying.
#[derive(Debug)]
pub enum PrefixEntry {
    Value(Choice),
    /// The simplest choice, for so many draws or for all of them.
    Simplest { count: Option<i64> },
}

/// The test case is over; it is unwound to whoever started it.
#[derive(Clone, Copy, Debug, PartialEq, Eq, Structural)]
pub struct StopTest {
    pub testcounter: u64,
}

/// The test case is over and takes no more calls of this kind.
#[derive(Clone, Copy, Debug, PartialEq, Eq, Structural)]
pub struct Frozen;

/// The nesting of draws.
#[derive(Debug)]
pub struct Spans {
    pub trail: Vec<Trail>,
    pub labels: Vec<u64>,
    /// How many spans have started and not ended.
    pub open: usize,
    pub max_depth: usize,
    pub has_discards: bool,
}

/// What is played back, and how far it has come.
#[derive(Debug)]
pub struct Replay {
    pub prefix: Option<Vec<PrefixEntry>>,
    pub index: usize,
    pub misaligned: bool,
}

/// A test case while it runs.
#[derive(Debug)]
pub struct Case {
    pub rng: StdRng,
    pub max_length: u64,
    pub max_choices: Option<usize>,
    pub testcounter: u64,
    pub output: String,
    pub replay: Replay,
    pub spans: Spans,
    pub nodes: Vec<Node>,
    /// How many bytes the recorded choices take.
    pub length: u64,
    pub status: Status,
    /// Identifies the failure of an interesting test case.
    pub interesting_origin: Option<u64>,
    pub frozen: bool,
}

// ---- spans ------------------------------------------------------------------

/// How many spans are open after a record.
pub open spec fn open_after(trail: Seq<Trail>) -> int
    decreases trail.len(),
{
    if trail.len() == 0 {
        0
    } else {
        open_after(trail.drop_last()) + match trail.last() {
            Trail::Start(_) => 1int,
            Trail::Choice => 0,
            Trail::Stop { .. } => -1,
        }
    }
}

/// How many choices a record holds.
pub open spec fn choices_in(trail: Seq<Trail>) -> int
    decreases trail.len(),
{
    if trail.len() == 0 {
        0
    } else {
        choices_in(trail.drop_last()) + if trail.last() == Trail::Choice {
            1int
        } else {
            0
        }
    }
}

/// The number of a label: the place where it is kept, or the next free one.
pub open spec fn label_number(labels: Seq<u64>, label: u64) -> int
    decreases labels.len(),
{
    if labels.len() == 0 {
        0
    } else {
        let r = label_number(labels.drop_last(), label);
        if r == labels.len() - 1 && labels.last() != label {
            labels.len() as int
        } else {
            r
        }
    }
}

proof fn lemma_label_number(labels: Seq<u64>, label: u64, n: int)
    requires
        0 <= n <= labels.len(),
        forall|k: int| 0 <= k < n ==> labels[k] != label,
        n < labels.len() ==> labels[n] == label,
    ensures
        label_number(labels, label) == n,
    decreases labels.len(),
{
    if labels.len() > 0 {
        let front = labels.drop_last();
        if n == labels.len() {
            lemma_label_number(front, label, n - 1);
        } else {
            lemma_label_number(front, label, n);
        }
    }
}

/// So many ends of spans.
pub open spec fn stops(n: nat) -> Seq<Trail> {
    Seq::new(n, |i: int| Trail::Stop { discard: false })
}

proof fn lemma_stops_close(trail: Seq<Trail>, n: nat)
    ensures
        open_after(trail + stops(n)) == open_after(trail) - n,
        choices_in(trail + stops(n)) == choices_in(trail),
    decreases n,
{
    if n == 0 {
        assert(trail + stops(0) =~= trail);
    } else {
        let m = (n - 1) as nat;
        lemma_stops_close(trail, m);
        assert((trail + stops(n)).drop_last() =~= trail + stops(m));
    }
}

impl Spans {
    pub open spec fn wf(&self) -> bool {
        &&& self.open == open_after(self.trail@)
        &&& self.open <= self.trail@.len()
        &&& self.open <= self.max_depth + 1
    }

    /// How deep the draws are nested: minus one when no span is open.
    pub open spec fn depth(&self) -> int {
        self.open - 1
    }

    fn start(&mut self, label: u64)
        requires
            old(self).wf(),
        ensures
            final(self).wf(),
            final(self).trail@ == old(self).trail@.push(
                Trail::Start(label_number(old(self).labels@, label) as usize),
            ),
            final(self).labels@ == (if label_number(old(self).labels@, label)
                == old(self).labels@.len() {
                old(self).labels@.push(label)
            } else {
                old(self).labels@
            }),
            final(self).open == old(self).open + 1,
            final(self).max_depth == (if old(self).open > old(self).max_depth {
                old(self).open
            } else {
                old(self).max_depth
            }),
            final(self).has_discards == old(self).has_discards,
    {
        let mut number: usize = 0;
        while number < self.labels.len() && self.labels[number] != label
            invariant
                number <= self.labels.len(),
                forall|k: int| 0 <= k < number ==> self.labels@[k] != label,
            decreases self.labels.len() - number,
        {
            number = number + 1;
        }
        proof {
            lemma_label_number(self.labels@, label, number as int);
        }
        if number == self.labels.len() {
            self.labels.push(label);
        }
        let ghost before = self.trail@;
        self.trail.push(Trail::Start(number));
        proof {
            assert(self.trail@.drop_last() =~= before);
        }
        let room: usize = self.trail.len();
        if self.open > self.max_depth {
            self.max_depth = self.open;
        }
        assert(self.open < room);
        self.open = self.open + 1;
    }

    fn stop(&mut self, discard: bool)
        requires
            old(self).wf(),
            old(self).open > 0,
        ensures
            final(self).wf(),
            final(self).trail@ == old(self).trail@.push(Trail::Stop { discard }),
            final(self).labels@ == old(self).labels@,
            final(self).open == old(self).open - 1,
            final(self).max_depth == old(self).max_depth,
            final(self).has_discards == (old(self).has_discards || discard),
    {
        if discard {
            self.has_discards = true;
        }
        let ghost before = self.trail@;
        self.open = self.open - 1;
        self.trail.push(Trail::Stop { discard });
        proof {
            assert(self.trail@.drop_last() =~= before);
        }
    }

    fn choice(&mut self)
        requires
            old(self).wf(),
        ensures
            final(self).wf(),
            final(self).trail@ == old(self).trail@.push(Trail::Choice),
            final(self).labels@ == old(self).labels@,
            final(self).open == old(self).open,
            final(self).max_depth == old(self).max_depth,
            final(self).has_discards == old(self).has_discards,
    {
        let ghost before = self.trail@;
        self.trail.push(Trail::Choice);
        proof {
            assert(self.trail@.drop_last() =~= before);
        }
    }

    fn close_all(&mut self)
        requires
            old(self).wf(),
        ensures
            final(self).wf(),
            final(self).trail@ == old(self).trail@ + stops(old(self).open as nat),
            final(self).labels@ == old(self).labels@,
            final(self).open == 0,
            final(self).max_depth == old(self).max_depth,
            final(self).has_discards == old(self).has_discards,
    {
        let ghost start = self.trail@;
        let ghost n = self.open as nat;
        proof {
            assert(start + stops(0) =~= start);
        }
        while self.open > 0
            invariant
                self.wf(),
                self.open <= n,
                self.trail@ == start + stops((n - self.open) as nat),
                self.labels@ == old(self).labels@,
                self.max_depth == old(self).max_depth,
                self.has_discards == old(self).has_discards,
            decreases self.open,
        {
            let ghost done = (n - self.open) as nat;
            self.stop(false);
            proof {
                assert((start + stops(done)).push(Trail::Stop { discard: false }) =~= start + stops(
                    done + 1,
                ));
            }
        }
    }
}

// ---- the simplest choice ----------------------------------------------------

/// The point between float bounds that zero picks: the lower bound, with the
/// negative zero made positive.
pub open spec fn mixed_for_zero(b: FloatBounds) -> u64 {
    if b.min_value == SIGN {
        0
    } else {
        b.min_value
    }
}

/// The first character in shrink order.
pub open spec fn simplest_character(set: IntervalSet) -> u32 {
    nth(set.intervals@, from_shrink_order(0, set.idx_of_zero as int, set.idx_of_z as int)) as u32
}

/// The simplest choice under given constraints.
pub open spec fn simplest_of(k: Constraints) -> Result<ChoiceModel, ChoiceError> {
    match k {
        Constraints::Integer { min_value, max_value, shrink_towards } => Ok(
            ChoiceModel::Integer(clamped(shrink_towards@, bound(min_value), bound(max_value))),
        ),
        Constraints::Boolean { p } => Ok(ChoiceModel::Boolean(float_le(ONE, p))),
        Constraints::Float(b) => Ok(ChoiceModel::Float(float_clamped(0, mixed_for_zero(b), b))),
        Constraints::Text { intervals, min_size, .. } => {
            if total(intervals.intervals@) == 0 {
                Ok(ChoiceModel::Text(Seq::empty()))
            } else if min_size >= BUFFER_SIZE {
                Err(ChoiceError::TooLarge)
            } else {
                Ok(
                    ChoiceModel::Text(
                        Seq::new(min_size as nat, |i: int| simplest_character(intervals)),
                    ),
                )
            }
        },
        Constraints::Bytes { min_size, .. } => {
            if min_size >= BUFFER_SIZE {
                Err(ChoiceError::TooLarge)
            } else {
                Ok(ChoiceModel::Bytes(Seq::new(min_size as nat, |i: int| 0u8)))
            }
        },
    }
}

fn repeated_text(c: u32, n: u64) -> (r: Vec<u32>)
    ensures
        r@ == Seq::new(n as nat, |i: int| c),
{
    let mut out: Vec<u32> = Vec::new();
    let mut left: u64 = n;
    while left > 0
        invariant
            left <= n,
            out@ =~= Seq::new((n - left) as nat, |i: int| c),
        decreases left,
    {
        out.push(c);
        left = left - 1;
    }
    out
}

fn repeated_zeros(n: u64) -> (r: Vec<u8>)
    ensures
        r@ == Seq::new(n as nat, |i: int| 0u8),
{
    let mut out: Vec<u8> = Vec::new();
    let mut left: u64 = n;
    while left > 0
        invariant
            left <= n,
            out@ =~= Seq::new((n - left) as nat, |i: int| 0u8),
        decreases left,
    {
        out.push(0);
        left = left - 1;
    }
    out
}

proof fn lemma_simplest_character(set: IntervalSet)
    requires
        set.wf(),
        set.normal(),
        total(set.intervals@) > 0,
    ensures
        ({
            let at = from_shrink_order(0, set.idx_of_zero as int, set.idx_of_z as int);
            0 <= at < set.size && set.has(nth(set.intervals@, at)) && ordinal(
                set.intervals@,
                nth(set.intervals@, at),
            ) == Some(at) && to_shrink_order(at, set.idx_of_zero as int, set.idx_of_z as int) == 0
        }),
{
    shrink_order_marks_are_ordered(set);
    shrink_order_is_a_bijection(
        0,
        set.idx_of_zero as int,
        set.idx_of_z as int,
        set.size as int,
    );
    position_survives_its_member(
        set.intervals@,
        from_shrink_order(0, set.idx_of_zero as int, set.idx_of_z as int),
    );
}

/// The simplest choice under given constraints.
pub fn simplest_choice(constraints: &Constraints) -> (r: Result<Choice, ChoiceError>)
    requires
        constraints.wf(),
        satisfiable(*constraints),
    ensures
        match simplest_of(*constraints) {
            Ok(c) => r is Ok && r->Ok_0@ == c,
            Err(e) => r == Err::<Choice, ChoiceError>(e),
        },
{
    match constraints {
        Constraints::Integer { min_value, max_value, shrink_towards } => Ok(
            Choice::Integer(clamp_shrink_towards(shrink_towards, min_value, max_value)),
        ),
        Constraints::Boolean { p } => Ok(Choice::Boolean(le(ONE, *p))),
        Constraints::Float(b) => {
            let mixed: u64 = if b.min_value == SIGN {
                0
            } else {
                b.min_value
            };
            Ok(Choice::Float(float_clamp(0, mixed, b)))
        },
        Constraints::Text { intervals, min_size, .. } => {
            if intervals.alphabet_len() == 0 {
                return Ok(Choice::Text(Vec::new()));
            }
            if *min_size >= BUFFER_SIZE {
                return Err(ChoiceError::TooLarge);
            }
            proof {
                lemma_simplest_character(*intervals);
            }
            let cp: i64 = match intervals.cp_in_shrink_order(0) {
                Ok(cp) => cp,
                Err(_) => 0,
            };
            Ok(Choice::Text(repeated_text(cp as u32, *min_size)))
        },
        Constraints::Bytes { min_size, .. } => {
            if *min_size >= BUFFER_SIZE {
                return Err(ChoiceError::TooLarge);
            }
            Ok(Choice::Bytes(repeated_zeros(*min_size)))
        },
    }
}

proof fn lemma_zero_letters(n: nat, alphabet: int)
    ensures
        letters_value(Seq::new(n, |i: int| 0int), alphabet) == 0,
    decreases n,
{
    let s = Seq::new(n, |i: int| 0int);
    if n > 0 {
        lemma_zero_letters((n - 1) as nat, alphabet);
        assert(s.drop_last() =~= Seq::new((n - 1) as nat, |i: int| 0int));
        assert(0 * alphabet == 0);
    }
}

/// The simplest choice is the one at index zero, and it keeps the constraints.
pub proof fn simplest_choice_has_index_zero(k: Constraints)
    requires
        k.wf(),
        satisfiable(k),
    ensures
        k is Float || choice_at(0, k, 0, simplest_of(k)),
        k is Float ==> choice_at(0, k, mixed_for_zero(k->Float_0), simplest_of(k)),
        simplest_of(k) is Ok ==> k.fits_kind(simplest_of(k)->Ok_0) && respects(
            k,
            simplest_of(k)->Ok_0,
        ),
{
    match k {
        Constraints::Integer { min_value, max_value, shrink_towards } => {
            crate::ordering::int_index_zero_is_the_target(
                bound(min_value),
                bound(max_value),
                shrink_towards@,
            );
        },
        Constraints::Boolean { p } => {},
        Constraints::Float(b) => {
            clamping_stays_within_bounds(0, mixed_for_zero(b), b);
            reveal_with_fuel(crate::floats::bit_length, 2);
        },
        Constraints::Text { intervals, min_size, .. } => {
            let letters = total(intervals.intervals@) as nat;
            intervals.lemma_size();
            if letters > 0 {
                lemma_simplest_character(intervals);
                let c = simplest_character(intervals);
                let t = Seq::new(min_size as nat, |i: int| c);
                let orders = crate::choice::text_orders(t, intervals);
                assert(orders =~= Seq::new(min_size as nat, |i: int| 0int));
                lemma_zero_letters(min_size as nat, letters as int);
                if min_size < BUFFER_SIZE {
                    shorter_count_grows((min_size + 1) as nat, BUFFER_SIZE as nat, letters);
                    shorter_count_grows(min_size as nat, (min_size + 1) as nat, letters);
                } else {
                    shorter_count_grows(BUFFER_SIZE as nat, min_size as nat, letters);
                }
                shorter_count_grows(0, min_size as nat, letters);
            }
        },
        Constraints::Bytes { min_size, .. } => {
            let b = Seq::new(min_size as nat, |i: int| 0u8);
            assert(crate::choice::byte_orders(b) =~= Seq::new(min_size as nat, |i: int| 0int));
            lemma_zero_letters(min_size as nat, 256);
            if min_size < BUFFER_SIZE {
                shorter_count_grows((min_size + 1) as nat, BUFFER_SIZE as nat, 256);
                shorter_count_grows(min_size as nat, (min_size + 1) as nat, 256);
            } else {
                shorter_count_grows(BUFFER_SIZE as nat, min_size as nat, 256);
            }
            shorter_count_grows(0, min_size as nat, 256);
        },
    }
}

/// The choice at index zero is permitted, and its index is zero. Of floats that is so where
/// zero is among them, and of strings where there are characters.
pub proof fn index_zero_maps_back(k: Constraints, mixed: u64, c: ChoiceModel)
    requires
        k.wf(),
        satisfiable(k),
        choice_at(0, k, mixed, Ok(c)),
        k is Float ==> k.permits(ChoiceModel::Float(0)),
        k is Text ==> total(k->Text_intervals.intervals@) > 0,
    ensures
        k.permits(c),
        choice_index_of(c, k) == 0,
{
    simplest_choice_has_index_zero(k);
    match k {
        Constraints::Text { .. } => {
            let s = simplest_of(k)->Ok_0;
            crate::choice::choice_survives_its_index(s, k, mixed, Ok(c));
        },
        Constraints::Bytes { .. } => {
            let s = simplest_of(k)->Ok_0;
            crate::choice::choice_survives_its_index(s, k, mixed, Ok(c));
        },
        Constraints::Integer { min_value, max_value, shrink_towards } => {
            crate::ordering::int_index_zero_is_the_target(
                bound(min_value),
                bound(max_value),
                shrink_towards@,
            );
        },
        _ => {},
    }
}

// ---- replaying --------------------------------------------------------------

/// Where the value of a draw comes from.
pub enum Plan {
    /// There is no value: the test case has run out of room.
    Overrun,
    Take(ChoiceModel),
    /// A random one is drawn.
    Sample,
}

/// How many more draws a template answers after one of them.
pub open spec fn count_down(count: Option<i64>) -> Option<i64> {
    match count {
        Some(c) => Some(
            if c > i64::MIN {
                (c - 1) as i64
            } else {
                c
            },
        ),
        None => None,
    }
}

/// What playing back lays down for a draw that nothing forces.
pub enum Rule {
    /// Nothing is laid down.
    Free,
    /// The simplest choice.
    Simplest,
    /// This choice, or the simplest one where it does not fit.
    Is(ChoiceModel),
}

/// What is laid down for the draw at place `n`, counted from place `at` of what is played
/// back. Simplest choices go on for ever.
pub open spec fn rule_from(p: Seq<PrefixEntry>, at: int, n: int) -> Rule
    decreases p.len() - at,
{
    if at < 0 || at >= p.len() {
        Rule::Free
    } else {
        match p[at] {
            PrefixEntry::Simplest { .. } => Rule::Simplest,
            PrefixEntry::Value(v) => if n <= 0 {
                Rule::Is(v@)
            } else {
                rule_from(p, at + 1, n - 1)
            },
        }
    }
}

/// An integer is what a rule lays down between two bounds.
pub open spec fn integer_ruled(
    rule: Rule,
    min: Option<int>,
    max: Option<int>,
    towards: int,
    n: int,
) -> bool {
    match rule {
        Rule::Free => true,
        Rule::Simplest => n == clamped(towards, min, max),
        Rule::Is(c) => n == (if c is Integer && crate::ordering::within(c->Integer_0, min, max) {
            c->Integer_0
        } else {
            clamped(towards, min, max)
        }),
    }
}

/// A choice is what a rule lays down where it is asked for with constraints.
pub open spec fn ruled(rule: Rule, k: Constraints, value: ChoiceModel) -> bool {
    match rule {
        Rule::Free => true,
        Rule::Simplest => simplest_of(k) == Ok::<ChoiceModel, ChoiceError>(value),
        Rule::Is(c) => if k.fits_kind(c) && k.permits(c) {
            value == c
        } else {
            simplest_of(k) == Ok::<ChoiceModel, ChoiceError>(value)
        },
    }
}

impl Replay {
    /// What is laid down for the draw at place `n` from here on.
    pub open spec fn rule_at(&self, n: int) -> Rule {
        if self.prefix is Some {
            rule_from(self.prefix->0@, self.index as int, n)
        } else {
            Rule::Free
        }
    }

    proof fn lemma_rules_step(
        self,
        next: Replay,
        k: Constraints,
        forced: Option<ChoiceModel>,
    )
        requires
            self.wf(),
            self.active(),
            self.steps_to(next, k, forced),
        ensures
            self.entry() is Simplest ==> forall|n: int|
                n >= 0 ==> #[trigger] next.rule_at(n) == Rule::Simplest && self.rule_at(n)
                    == Rule::Simplest,
            self.entry() is Value ==> self.rule_at(0) == Rule::Is(self.entry()->Value_0@),
            self.entry() is Value && next.index == self.index + 1 ==> forall|n: int|
                n >= 0 ==> #[trigger] next.rule_at(n) == self.rule_at(n + 1),
            self.entry() is Value && next.index == self.index ==> forall|n: int|
                n >= 0 ==> #[trigger] next.rule_at(n) == self.rule_at(n),
    {
    }

    pub open spec fn wf(&self) -> bool {
        self.prefix is Some ==> self.index <= self.prefix->0@.len()
    }

    /// Whatever is played back does not run out by itself: no number of simplest choices
    /// was promised.
    pub open spec fn endless(&self) -> bool {
        self.prefix is Some ==> forall|i: int|
            0 <= i < self.prefix->0@.len() ==> !((#[trigger] self.prefix->0@[i]) is Simplest
                && self.prefix->0@[i]->Simplest_count is Some)
    }

    /// There is something left to play back.
    pub open spec fn active(&self) -> bool {
        self.prefix is Some && self.index < self.prefix->0@.len()
    }

    /// What is played back next.
    pub open spec fn entry(&self) -> PrefixEntry {
        self.prefix->0@[self.index as int]
    }

    /// What playing back gives for a draw.
    pub open spec fn plan(&self, k: Constraints, forced: Option<ChoiceModel>) -> Plan {
        match self.entry() {
            PrefixEntry::Simplest { count } => {
                if forced is None && simplest_of(k) is Err {
                    Plan::Overrun
                } else if count is Some && count->0 <= 0 {
                    Plan::Overrun
                } else if forced is Some {
                    Plan::Take(forced->0)
                } else {
                    Plan::Take(simplest_of(k)->Ok_0)
                }
            },
            PrefixEntry::Value(v) => {
                if k.fits_kind(v@) && k.permits(v@) {
                    Plan::Take(v@)
                } else if simplest_of(k) is Err {
                    Plan::Overrun
                } else {
                    Plan::Take(simplest_of(k)->Ok_0)
                }
            },
        }
    }

    /// `next` is the state behind a draw that was played back from `self`.
    pub open spec fn steps_to(
        &self,
        next: Replay,
        k: Constraints,
        forced: Option<ChoiceModel>,
    ) -> bool {
        match self.entry() {
            PrefixEntry::Simplest { count } => {
                &&& next.index == self.index
                &&& next.misaligned == self.misaligned
                &&& next.prefix is Some
                &&& next.prefix->0@ == (if forced is None && simplest_of(k) is Err {
                    self.prefix->0@
                } else {
                    self.prefix->0@.update(
                        self.index as int,
                        PrefixEntry::Simplest { count: count_down(count) },
                    )
                })
            },
            PrefixEntry::Value(v) => {
                let fits = k.fits_kind(v@) && k.permits(v@);
                &&& next.prefix == self.prefix
                &&& next.misaligned == (self.misaligned || !fits)
                &&& next.index == self.index + (if fits || simplest_of(k) is Ok {
                    1int
                } else {
                    0
                })
            },
        }
    }

    /// Plays back one entry. Nothing comes back where the test case has to stop.
    fn pop_choice(&mut self, constraints: &Constraints, forced: &Option<Choice>) -> (r: Option<
        Choice,
    >)
        requires
            old(self).wf(),
            old(self).active(),
            constraints.wf(),
            satisfiable(*constraints),
        ensures
            final(self).wf(),
            old(self).steps_to(*final(self), *constraints, choice_model(*forced)),
            match old(self).plan(*constraints, choice_model(*forced)) {
                Plan::Take(c) => r is Some && r->0@ == c,
                _ => r is None,
            },
    {
        let at: usize = self.index;
        let count: usize = match &self.prefix {
            Some(prefix) => prefix.len(),
            None => 0,
        };
        assert(at < count);
        let taken = match &mut self.prefix {
            Some(prefix) => {
                match &prefix[at] {
                    PrefixEntry::Simplest { count } => {
                        let left: Option<i64> = *count;
                        let choice = match forced {
                            Some(f) => f.clone(),
                            None => match simplest_choice(constraints) {
                                Ok(c) => c,
                                Err(_) => {
                                    return None;
                                },
                            },
                        };
                        let next: Option<i64> = match left {
                            Some(c) => Some(
                                if c > i64::MIN {
                                    c - 1
                                } else {
                                    c
                                },
                            ),
                            None => None,
                        };
                        prefix.set(at, PrefixEntry::Simplest { count: next });
                        return match left {
                            Some(c) if c <= 0 => None,
                            _ => Some(choice),
                        };
                    },
                    PrefixEntry::Value(v) => match choice_permitted(v, constraints) {
                        Ok(true) => Some(v.clone()),
                        _ => None,
                    },
                }
            },
            None => None,
        };
        match taken {
            Some(c) => {
                self.index = at + 1;
                Some(c)
            },
            None => {
                self.misaligned = true;
                match simplest_choice(constraints) {
                    Ok(c) => {
                        self.index = at + 1;
                        Some(c)
                    },
                    Err(_) => None,
                }
            },
        }
    }
}

/// What an optional choice is.
pub open spec fn choice_model(c: Option<Choice>) -> Option<ChoiceModel> {
    match c {
        Some(c) => Some(c@),
        None => None,
    }
}

/// How many choices a prefix answers, or nothing where it answers any number.
pub open spec fn prefix_count(prefix: Seq<PrefixEntry>) -> Option<nat>
    decreases prefix.len(),
{
    if prefix.len() == 0 {
        Some(0)
    } else {
        match (prefix_count(prefix.drop_last()), prefix.last()) {
            (None, _) => None,
            (Some(n), PrefixEntry::Value(_)) => Some(n + 1),
            (Some(_), PrefixEntry::Simplest { count: None }) => None,
            (Some(n), PrefixEntry::Simplest { count: Some(c) }) => Some(
                if c > 0 {
                    n + c as nat
                } else {
                    n
                },
            ),
        }
    }
}

/// A count as a machine number, or the largest one where it is greater.
pub open spec fn capped_count(n: nat) -> usize {
    if n <= usize::MAX {
        n as usize
    } else {
        usize::MAX
    }
}

proof fn lemma_prefix_count_unbounded(prefix: Seq<PrefixEntry>, n: int)
    requires
        0 <= n <= prefix.len(),
        prefix_count(prefix.take(n)) is None,
    ensures
        prefix_count(prefix) is None,
    decreases prefix.len(),
{
    if n < prefix.len() {
        assert(prefix.drop_last().take(n) =~= prefix.take(n));
        lemma_prefix_count_unbounded(prefix.drop_last(), n);
    } else {
        assert(prefix.take(n) =~= prefix);
    }
}

pub fn prefix_choice_count(prefix: &Vec<PrefixEntry>) -> (r: Option<usize>)
    ensures
        match prefix_count(prefix@) {
            Some(n) => r == Some(capped_count(n)),
            None => r is None,
        },
{
    let mut total: usize = 0;
    let mut i: usize = 0;
    proof {
        assert(prefix@.take(0) =~= Seq::<PrefixEntry>::empty());
    }
    while i < prefix.len()
        invariant
            i <= prefix.len(),
            prefix_count(prefix@.take(i as int)) is Some,
            total == capped_count(prefix_count(prefix@.take(i as int))->0),
        decreases prefix.len() - i,
    {
        proof {
            let front = prefix@.take(i + 1);
            assert(front.drop_last() =~= prefix@.take(i as int));
            assert(front.last() == prefix@[i as int]);
        }
        let more: u64 = match &prefix[i] {
            PrefixEntry::Value(_) => 1,
            PrefixEntry::Simplest { count } => match count {
                Some(c) => if *c > 0 {
                    *c as u64
                } else {
                    0
                },
                None => {
                    proof {
                        lemma_prefix_count_unbounded(prefix@, i + 1);
                    }
                    return None;
                },
            },
        };
        total = if more > (usize::MAX - total) as u64 {
            usize::MAX
        } else {
            total + more as usize
        };
        i = i + 1;
    }
    proof {
        assert(prefix@.take(i as int) =~= prefix@);
    }
    Some(total)
}

// ---- the test case ----------------------------------------------------------

/// How many bytes the nodes take when saved.
pub open spec fn total_size(nodes: Seq<Node>) -> nat
    decreases nodes.len(),
{
    if nodes.len() == 0 {
        0
    } else {
        total_size(nodes.drop_last()) + encoded(nodes.last().value@).len()
    }
}

/// Every node is of the kind that its constraints are for, and these are in order.
pub open spec fn nodes_wf(nodes: Seq<Node>) -> bool {
    forall|i: int| 0 <= i < nodes.len() ==> node_wf(#[trigger] nodes[i])
}

pub open spec fn node_wf(n: Node) -> bool {
    n.constraints.wf() && satisfiable(n.constraints) && n.constraints.fits_kind(n.value@)
}

/// The choices that nodes record.
pub open spec fn recorded(nodes: Seq<Node>) -> Seq<ChoiceModel> {
    nodes.map_values(|n: Node| n.value@)
}

/// How many bytes of choices a test case has room for.
pub open spec fn room(buffer_limit: Option<u64>) -> u64 {
    match buffer_limit {
        Some(n) => n,
        None => BUFFER_SIZE,
    }
}

impl Case {
    /// The length is that of the recorded choices, each of which left its mark in the
    /// record of spans; an ended test case has no open span.
    pub open spec fn wf(&self) -> bool {
        &&& self.spans.wf()
        &&& self.replay.wf()
        &&& self.length == capped(total_size(self.nodes@))
        &&& choices_in(self.spans.trail@) == self.nodes@.len()
        &&& nodes_wf(self.nodes@)
    }

    /// There is no room for another choice.
    pub open spec fn full(&self) -> bool {
        self.length >= self.max_length || self.max_choices == Some(self.nodes@.len() as usize)
    }

    /// Where the value of the next draw comes from.
    pub open spec fn plan(
        &self,
        k: Constraints,
        observe: bool,
        forced: Option<ChoiceModel>,
    ) -> Plan {
        if self.full() {
            Plan::Overrun
        } else if observe && self.replay.active() {
            match (self.replay.plan(k, forced), forced) {
                (Plan::Take(_), Some(f)) => Plan::Take(f),
                (p, _) => p,
            }
        } else {
            match forced {
                Some(f) => Plan::Take(f),
                None => Plan::Sample,
            }
        }
    }

    /// The settings that nothing changes while the test case runs.
    pub open spec fn same_settings(&self, other: Case) -> bool {
        &&& self.max_length == other.max_length
        &&& self.max_choices == other.max_choices
        &&& self.testcounter == other.testcounter
        &&& self.output == other.output
    }

    /// `self` is `other` after it ended with a status, with all its spans closed.
    pub open spec fn ended_from(
        &self,
        other: Case,
        status: Status,
        origin: Option<u64>,
    ) -> bool {
        &&& self.same_settings(other)
        &&& self.status == status
        &&& self.interesting_origin == origin
        &&& self.frozen
        &&& self.nodes == other.nodes
        &&& self.length == other.length
        &&& self.replay == other.replay
        &&& self.rng == other.rng
        &&& !other.frozen ==> self.spans.open == 0 && self.spans.trail@ == other.spans.trail@
            + stops(other.spans.open as nat)
        &&& other.frozen ==> self.spans == other.spans
        &&& self.spans.has_discards == other.spans.has_discards
    }

    /// A test case with nothing drawn yet and its outermost span open.
    pub fn new(
        seed: u64,
        prefix: Option<Vec<PrefixEntry>>,
        max_choices: Option<usize>,
        buffer_limit: Option<u64>,
    ) -> (r: Case)
        ensures
            r.wf(),
            r.fresh(),
            r.max_length == room(buffer_limit),
            r.max_choices == max_choices,
            r.replay.prefix == prefix,
            r.rng == generator_of(seed),
    {
        let max_length: u64 = match buffer_limit {
            Some(n) => n,
            None => BUFFER_SIZE,
        };
        let mut spans = Spans {
            trail: Vec::new(),
            labels: Vec::new(),
            open: 0,
            max_depth: 0,
            has_discards: false,
        };
        spans.start(0);
        proof {
            assert(spans.trail@.drop_last() =~= Seq::<Trail>::empty());
            assert(choices_in(spans.trail@.drop_last()) == 0);
        }
        Case {
            rng: seeded(seed),
            max_length,
            max_choices,
            testcounter: 0,
            output: String::new(),
            replay: Replay { prefix, index: 0, misaligned: false },
            spans,
            nodes: Vec::new(),
            length: 0,
            status: Status::Valid,
            interesting_origin: None,
            frozen: false,
        }
    }

    /// Nothing has happened yet.
    pub open spec fn fresh(&self) -> bool {
        &&& self.nodes@.len() == 0
        &&& self.length == 0
        &&& self.status == Status::Valid
        &&& self.interesting_origin is None
        &&& !self.frozen
        &&& self.replay.index == 0
        &&& !self.replay.misaligned
        &&& self.spans.open == 1
        &&& self.spans.max_depth == 0
        &&& !self.spans.has_discards
        &&& self.output@ == Seq::<char>::empty()
    }

    /// A test case in which nothing has happened yet and whose choices are random, from
    /// the generator that the seed gives.
    pub open spec fn makes_up(&self, seed: u64, buffer_limit: Option<u64>) -> bool {
        &&& self.wf() && self.fresh()
        &&& self.max_length == room(buffer_limit)
        &&& self.replay.prefix is None
        &&& self.max_choices is None
        &&& self.rng == generator_of(seed)
    }

    /// A test case in which nothing has happened yet and every choice will be the
    /// simplest one.
    pub open spec fn simplest_only(&self, buffer_limit: Option<u64>) -> bool {
        &&& self.wf() && self.fresh()
        &&& self.max_length == room(buffer_limit)
        &&& self.max_choices is None
        &&& self.replay.prefix is Some && self.replay.prefix->0@ == seq![
            PrefixEntry::Simplest { count: None },
        ]
    }

    /// A test case in which nothing has happened yet and which plays back choices, and
    /// ends behind the last of them.
    pub open spec fn only_replays(
        &self,
        choices: Seq<ChoiceModel>,
        buffer_limit: Option<u64>,
    ) -> bool {
        &&& self.wf() && self.fresh()
        &&& self.max_length == room(buffer_limit)
        &&& self.max_choices == Some(choices.len() as usize)
        &&& self.plays_back(choices)
    }

    /// A test case with random choices.
    pub fn new_generate(seed: u64, buffer_limit: Option<u64>) -> (r: Case)
        ensures
            r.wf(),
            r.fresh(),
            r.makes_up(seed, buffer_limit),
    {
        Case::new(seed, None, None, buffer_limit)
    }

    /// A test case in which every choice is the simplest one.
    pub fn new_simplest(buffer_limit: Option<u64>) -> (r: Case)
        ensures
            r.wf(),
            r.fresh(),
            r.replay.prefix is Some,
            r.replay.prefix->0@ == seq![PrefixEntry::Simplest { count: None }],
            r.max_choices is None,
            r.simplest_only(buffer_limit),
    {
        let mut prefix: Vec<PrefixEntry> = Vec::new();
        prefix.push(PrefixEntry::Simplest { count: None });
        proof {
            assert(prefix@ =~= seq![PrefixEntry::Simplest { count: None }]);
        }
        Case::new(0, Some(prefix), None, buffer_limit)
    }

    /// A test case that plays back choices and ends behind the last of them.
    pub fn new_for_choices(
        choices: &Vec<Choice>,
        seed: u64,
        buffer_limit: Option<u64>,
    ) -> (r: Case)
        ensures
            r.wf(),
            r.fresh(),
            r.max_choices == Some(choices@.len() as usize),
            r.replay.prefix is Some,
            r.plays_back(crate::choice::models(choices@)),
            r.only_replays(crate::choice::models(choices@), buffer_limit),
    {
        let mut prefix: Vec<PrefixEntry> = Vec::new();
        let mut i: usize = 0;
        while i < choices.len()
            invariant
                i <= choices.len(),
                prefix@.len() == i,
                forall|k: int|
                    0 <= k < i ==> (#[trigger] prefix@[k]) is Value && prefix@[k]->Value_0@
                        == choices@[k]@,
            decreases choices.len() - i,
        {
            prefix.push(PrefixEntry::Value(choices[i].clone()));
            i = i + 1;
        }
        Case::new(seed, Some(prefix), Some(choices.len()), buffer_limit)
    }

    /// What is left to play back is exactly these choices.
    pub open spec fn plays_back(&self, choices: Seq<ChoiceModel>) -> bool {
        &&& self.replay.prefix is Some
        &&& self.replay.prefix->0@.len() == self.replay.index + choices.len()
        &&& forall|i: int|
            0 <= i < choices.len() ==> {
                let e = #[trigger] self.replay.prefix->0@[self.replay.index + i];
                e is Value && e->Value_0@ == choices[i]
            }
    }

    /// A test case that plays back a prefix which may hold templates.
    pub fn for_choices(
        prefix: Vec<PrefixEntry>,
        seed: u64,
        buffer_limit: Option<u64>,
    ) -> (r: Case)
        ensures
            r.wf(),
            r.fresh(),
            r.replay.prefix == Some(prefix),
            r.max_choices == (match prefix_count(prefix@) {
                Some(n) => Some(capped_count(n)),
                None => None::<usize>,
            }),
    {
        let max_choices = prefix_choice_count(&prefix);
        Case::new(seed, Some(prefix), max_choices, buffer_limit)
    }

    /// Ends the test case, closing all its spans.
    pub fn freeze(&mut self)
        requires
            old(self).wf(),
        ensures
            final(self).wf(),
            final(self).ended_from(*old(self), old(self).status, old(self).interesting_origin),
    {
        if self.frozen {
            return ;
        }
        proof {
            lemma_stops_close(self.spans.trail@, self.spans.open as nat);
        }
        self.spans.close_all();
        self.frozen = true;
    }

    /// Ends the test case with a status.
    pub fn conclude_test(&mut self, status: Status, origin: Option<u64>) -> (r: StopTest)
        requires
            old(self).wf(),
        ensures
            final(self).wf(),
            final(self).ended_from(*old(self), status, origin),
            r == (StopTest { testcounter: old(self).testcounter }),
    {
        self.interesting_origin = origin;
        self.status = status;
        self.freeze();
        StopTest { testcounter: self.testcounter }
    }

    pub fn mark_invalid(&mut self) -> (r: StopTest)
        requires
            old(self).wf(),
        ensures
            final(self).wf(),
            final(self).ended_from(*old(self), Status::Invalid, None),
            r == (StopTest { testcounter: old(self).testcounter }),
    {
        self.conclude_test(Status::Invalid, None)
    }

    pub fn mark_overrun(&mut self) -> (r: StopTest)
        requires
            old(self).wf(),
        ensures
            final(self).wf(),
            final(self).ended_from(*old(self), Status::Overrun, None),
            r == (StopTest { testcounter: old(self).testcounter }),
    {
        self.conclude_test(Status::Overrun, None)
    }

    pub fn mark_interesting(&mut self, origin: u64) -> (r: StopTest)
        requires
            old(self).wf(),
        ensures
            final(self).wf(),
            final(self).ended_from(*old(self), Status::Interesting, Some(origin)),
            r == (StopTest { testcounter: old(self).testcounter }),
    {
        self.conclude_test(Status::Interesting, Some(origin))
    }

    /// Everything but the spans is as it was.
    pub open spec fn same_but_spans(&self, other: Case) -> bool {
        &&& self.same_settings(other)
        &&& self.nodes == other.nodes
        &&& self.length == other.length
        &&& self.replay == other.replay
        &&& self.status == other.status
        &&& self.interesting_origin == other.interesting_origin
        &&& self.frozen == other.frozen
    }

    /// Starts a span, whether or not the test case is over.
    pub fn open_span(&mut self, label: u64)
        requires
            old(self).wf(),
        ensures
            final(self).wf(),
            final(self).same_but_spans(*old(self)),
            final(self).spans.open == old(self).spans.open + 1,
            final(self).spans.trail@ == old(self).spans.trail@.push(
                Trail::Start(label_number(old(self).spans.labels@, label) as usize),
            ),
            final(self).spans.max_depth == (if old(self).spans.open > old(self).spans.max_depth {
                old(self).spans.open
            } else {
                old(self).spans.max_depth
            }),
    {
        let ghost before = self.spans.trail@;
        self.spans.start(label);
        proof {
            assert(self.spans.trail@.drop_last() =~= before);
        }
    }

    /// Starts a span, unless the test case is over.
    pub fn start_span(&mut self, label: u64) -> (r: Result<(), Frozen>)
        requires
            old(self).wf(),
        ensures
            final(self).wf(),
            r is Err <==> old(self).frozen,
            final(self).same_but_spans(*old(self)),
            old(self).frozen ==> *final(self) == *old(self),
            !old(self).frozen ==> final(self).spans.open == old(self).spans.open + 1
                && final(self).spans.trail@ == old(self).spans.trail@.push(
                Trail::Start(label_number(old(self).spans.labels@, label) as usize),
            ),
    {
        if self.frozen {
            return Err(Frozen);
        }
        self.open_span(label);
        Ok(())
    }

    /// Ends the innermost span. Nothing happens when the test case is over or no span
    /// is open.
    pub fn stop_span(&mut self, discard: bool)
        requires
            old(self).wf(),
        ensures
            final(self).wf(),
            final(self).same_but_spans(*old(self)),
            old(self).frozen || old(self).spans.open == 0 ==> *final(self) == *old(self),
            !old(self).frozen && old(self).spans.open > 0 ==> {
                &&& final(self).spans.open == old(self).spans.open - 1
                &&& final(self).spans.trail@ == old(self).spans.trail@.push(Trail::Stop { discard })
                &&& final(self).spans.has_discards == (old(self).spans.has_discards || discard)
                &&& final(self).spans.max_depth == old(self).spans.max_depth
            },
    {
        if self.frozen || self.spans.open == 0 {
            return ;
        }
        let ghost before = self.spans.trail@;
        self.spans.stop(discard);
        proof {
            assert(self.spans.trail@.drop_last() =~= before);
        }
    }

    /// Notes that something drawn was thrown away.
    pub fn note_discard(&mut self)
        requires
            old(self).wf(),
        ensures
            final(self).wf(),
            final(self).same_but_spans(*old(self)),
            final(self).spans.has_discards,
            final(self).spans.trail == old(self).spans.trail,
            final(self).spans.open == old(self).spans.open,
    {
        self.spans.has_discards = true;
    }

    /// Whether draws are nested more than `limit` deep.
    pub fn deeper_than(&self, limit: usize) -> (r: bool)
        ensures
            r == (self.spans.depth() > limit),
    {
        self.spans.open > 0 && self.spans.open - 1 > limit
    }

    /// Appends to the output, unless the test case is over.
    pub fn note(&mut self, text: &str) -> (r: Result<(), Frozen>)
        requires
            old(self).wf(),
        ensures
            final(self).wf(),
            r is Err <==> old(self).frozen,
            r is Err ==> *final(self) == *old(self),
            r is Ok ==> final(self).output@ == old(self).output@ + text@,
            final(self).nodes == old(self).nodes,
            final(self).status == old(self).status,
    {
        if self.frozen {
            return Err(Frozen);
        }
        self.output.append(text);
        Ok(())
    }

    pub fn status_is_valid(&self) -> (r: bool)
        ensures
            r == (self.status == Status::Valid),
    {
        self.status == Status::Valid
    }

    pub fn status_is_overrun(&self) -> (r: bool)
        ensures
            r == (self.status == Status::Overrun),
    {
        self.status == Status::Overrun
    }

    /// The choices recorded so far.
    pub fn choices(&self) -> (r: Vec<Choice>)
        ensures
            crate::choice::models(r@) == recorded(self.nodes@),
    {
        let mut out: Vec<Choice> = Vec::new();
        let mut i: usize = 0;
        while i < self.nodes.len()
            invariant
                i <= self.nodes.len(),
                out@.len() == i,
                forall|k: int| 0 <= k < i ==> (#[trigger] out@[k])@ == self.nodes@[k].value@,
            decreases self.nodes.len() - i,
        {
            out.push(self.nodes[i].value.clone());
            i = i + 1;
        }
        proof {
            assert(crate::choice::models(out@) =~= recorded(self.nodes@));
        }
        out
    }

    fn record_node(&mut self, value: &Choice, constraints: Constraints, was_forced: bool)
        requires
            old(self).wf(),
            constraints.wf(),
            satisfiable(constraints),
            constraints.fits_kind(value@),
        ensures
            final(self).wf(),
            final(self).same_settings(*old(self)),
            final(self).replay == old(self).replay,
            final(self).rng == old(self).rng,
            final(self).status == old(self).status,
            final(self).interesting_origin == old(self).interesting_origin,
            final(self).frozen == old(self).frozen,
            final(self).spans.open == old(self).spans.open,
            final(self).spans.has_discards == old(self).spans.has_discards,
            final(self).spans.max_depth == old(self).spans.max_depth,
            final(self).spans.trail@ == old(self).spans.trail@.push(Trail::Choice),
            final(self).adds_node(*old(self), value@, constraints, was_forced),
    {
        let ghost trail = self.spans.trail@;
        let ghost nodes = self.nodes@;
        self.spans.choice();
        let size: u64 = one_choice_size(value);
        self.length = if size > u64::MAX - self.length {
            u64::MAX
        } else {
            self.length + size
        };
        self.nodes.push(Node { value: value.clone(), constraints, was_forced });
        proof {
            assert(self.spans.trail@.drop_last() =~= trail);
            assert(self.nodes@.drop_last() =~= nodes);
            assert forall|i: int| 0 <= i < self.nodes@.len() implies node_wf(
                #[trigger] self.nodes@[i],
            ) by {
                if i < nodes.len() {
                    assert(self.nodes@[i] == nodes[i]);
                }
            }
        }
    }

    /// `self` has one node more than `other`.
    pub open spec fn adds_node(
        &self,
        other: Case,
        value: ChoiceModel,
        k: Constraints,
        was_forced: bool,
    ) -> bool {
        &&& self.nodes@.len() == other.nodes@.len() + 1
        &&& self.nodes@.drop_last() == other.nodes@
        &&& self.nodes@.last().value@ == value
        &&& self.nodes@.last().constraints == k
        &&& self.nodes@.last().was_forced == was_forced
    }

    /// Draws a choice: from what is played back, else the forced value, else a random
    /// one. An observed draw is recorded.
    pub fn draw<N: Numerics>(
        &mut self,
        numerics: &mut N,
        constraints: Constraints,
        weights: &Vec<(Int, u64)>,
        candidates: &Vec<Int>,
        observe: bool,
        forced: Option<Choice>,
    ) -> (r: Result<Choice, StopTest>)
        requires
            old(self).wf(),
            constraints.wf(),
            satisfiable(constraints),
            forced is Some ==> constraints.fits_kind(forced->0@),
        ensures
            final(self).wf(),
            final(self).same_settings(*old(self)),
            r is Err ==> r->Err_0 == (StopTest { testcounter: old(self).testcounter })
                && final(self).status == Status::Overrun && final(self).frozen,
            !old(self).full() && observe && old(self).replay.active() ==> old(
                self).replay.steps_to(
                final(self).replay,
                constraints,
                choice_model(forced),
            ),
            old(self).full() || !observe || !old(self).replay.active() ==> final(self).replay
                == old(self).replay,
            old(self).replay.endless() ==> final(self).replay.endless(),
            final(self).spans.has_discards == old(self).spans.has_discards,
            r is Err ==> final(self).nodes@ == old(self).nodes@ || {
                let c = final(self).nodes@.last().value@;
                &&& final(self).adds_node(*old(self), c, constraints, forced is Some)
                &&& constraints.fits_kind(c)
                &&& forced is None && (!(constraints is Integer) || weights_within(
                    weights@,
                    bound(constraints->Integer_min_value),
                    bound(constraints->Integer_max_value),
                )) ==> respects(constraints, c)
            },
            final(self).obeys(*old(self)),
            match old(self).plan(constraints, observe, choice_model(forced)) {
                Plan::Overrun => r is Err && final(self).nodes == old(self).nodes
                    && final(self).length == old(self).length && final(self).rng == old(self).rng,
                Plan::Take(c) => {
                    &&& final(self).rng == old(self).rng
                    &&& final(self).draw_recorded(
                        *old(self),
                        c,
                        constraints,
                        observe,
                        forced is Some,
                    )
                    &&& r is Ok <==> !observe || final(self).length <= final(self).max_length
                    &&& r is Ok ==> r->Ok_0@ == c
                },
                Plan::Sample => {
                    &&& r is Ok <==> !observe || final(self).length <= final(self).max_length
                    &&& r is Ok ==> final(self).draw_recorded(
                        *old(self),
                        r->Ok_0@,
                        constraints,
                        observe,
                        false,
                    )
                    &&& r is Ok ==> came_up::<N>(
                        old(self).rng,
                        constraints,
                        weights@,
                        candidates@,
                        r->Ok_0@,
                        final(self).rng,
                    )
                    &&& r is Err ==> final(self).nodes@.len() == old(self).nodes@.len() + 1
                        && final(self).nodes@.drop_last() == old(self).nodes@
                },
            },
            r is Ok && observe && forced is None ==> final(self).drew_next(
                *old(self),
                constraints,
                r->Ok_0@,
            ),
            r is Ok ==> constraints.fits_kind(r->Ok_0@),
            r is Ok && forced is None && (!(constraints is Integer) || weights_within(
                weights@,
                bound(constraints->Integer_min_value),
                bound(constraints->Integer_max_value),
            )) ==> respects(constraints, r->Ok_0@),
    {
        if self.length >= self.max_length {
            return Err(self.mark_overrun());
        }
        if let Some(limit) = self.max_choices {
            if self.nodes.len() == limit {
                return Err(self.mark_overrun());
            }
        }
        proof {
            simplest_choice_has_index_zero(constraints);
        }
        let playing = observe && match &self.replay.prefix {
            Some(prefix) => self.replay.index < prefix.len(),
            None => false,
        };
        let ghost start = *self;
        let mut value: Option<Choice> = None;
        if playing {
            let popped = self.replay.pop_choice(&constraints, &forced);
            proof {
                start.replay.lemma_rules_step(self.replay, constraints, choice_model(forced));
            }
            match popped {
                Some(c) => {
                    value = Some(c);
                },
                None => {
                    return Err(self.mark_overrun());
                },
            }
        }
        let was_forced = forced.is_some();
        let drawn: Choice = match forced {
            Some(f) => f,
            None => match value {
                Some(c) => c,
                None => provider_sample(
                    &mut self.rng,
                    numerics,
                    &constraints,
                    weights,
                    candidates,
                ),
            },
        };
        if observe {
            self.record_node(&drawn, constraints, was_forced);
            if self.length > self.max_length {
                return Err(self.mark_overrun());
            }
        }
        Ok(drawn)
    }

    /// `self` is `other` after a recorded draw that nothing forced and that gave `value`.
    pub open spec fn drew_next(&self, other: Case, k: Constraints, value: ChoiceModel) -> bool {
        &&& !other.full()
        &&& other.replay.active() ==> other.replay.steps_to(self.replay, k, None)
        &&& !other.replay.active() ==> self.replay == other.replay
        &&& self.adds_node(other, value, k, false)
        &&& match other.plan(k, true, None) {
            Plan::Take(c) => value == c,
            Plan::Sample => true,
            Plan::Overrun => false,
        }
    }

    /// `self` is `other` after a draw of `value`, apart from what is played back.
    pub open spec fn draw_recorded(
        &self,
        other: Case,
        value: ChoiceModel,
        k: Constraints,
        observe: bool,
        was_forced: bool,
    ) -> bool {
        &&& !observe ==> {
            &&& self.nodes == other.nodes
            &&& self.spans == other.spans
            &&& self.status == other.status
            &&& self.interesting_origin == other.interesting_origin
            &&& self.frozen == other.frozen
        }
        &&& observe ==> self.adds_node(other, value, k, was_forced)
        &&& observe && self.length <= self.max_length ==> {
            &&& self.status == other.status
            &&& self.interesting_origin == other.interesting_origin
            &&& self.frozen == other.frozen
            &&& self.spans.open == other.spans.open
            &&& self.spans.has_discards == other.spans.has_discards
            &&& self.spans.max_depth == other.spans.max_depth
            &&& self.spans.trail@ == other.spans.trail@.push(Trail::Choice)
        }
    }
}

// ---- typed draws ------------------------------------------------------------

impl Case {
    /// What was recorded since `other` is what was laid down by playing back, unless it was
    /// forced; and what is laid down from here on is what was laid down behind it.
    pub open spec fn obeys(&self, other: Case) -> bool {
        let from = other.nodes@.len() as int;
        &&& forall|n: int|
            n >= 0 ==> #[trigger] self.replay.rule_at(n) == other.replay.rule_at(
                n + (self.nodes@.len() - from),
            )
        &&& forall|i: int|
            from <= i < self.nodes@.len() ==> (#[trigger] self.nodes@[i]).was_forced || ruled(
                other.replay.rule_at(i - from),
                self.nodes@[i].constraints,
                self.nodes@[i].value@,
            )
    }

    /// `self` is what became of `other`: whatever was recorded still is, and what came to it
    /// obeys what is played back.
    pub open spec fn grown_from(&self, other: Case) -> bool {
        &&& self.obeys(other)
        &&& self.wf()
        &&& self.same_settings(other)
        &&& self.nodes@.len() >= other.nodes@.len()
        &&& self.nodes@.take(other.nodes@.len() as int) == other.nodes@
        &&& other.replay.endless() ==> self.replay.endless()
        &&& other.spans.has_discards ==> self.spans.has_discards
    }

    pub proof fn lemma_grown(a: Case, b: Case, c: Case)
        requires
            b.grown_from(a),
            c.grown_from(b),
        ensures
            c.grown_from(a),
    {
        assert(c.nodes@.take(a.nodes@.len() as int) =~= b.nodes@.take(a.nodes@.len() as int));
        let from = a.nodes@.len() as int;
        let middle = b.nodes@.len() as int;
        assert forall|n: int| n >= 0 implies #[trigger] c.replay.rule_at(n) == a.replay.rule_at(
            n + (c.nodes@.len() - from),
        ) by {
            let m = n + (c.nodes@.len() - middle);
            assert(b.replay.rule_at(m) == a.replay.rule_at(m + (middle - from)));
        }
        assert forall|i: int| from <= i < c.nodes@.len() implies (
        #[trigger] c.nodes@[i]).was_forced || ruled(
            a.replay.rule_at(i - from),
            c.nodes@[i].constraints,
            c.nodes@[i].value@,
        ) by {
            if i < middle {
                assert(c.nodes@.take(middle)[i] == b.nodes@[i]);
            } else {
                let m = i - middle;
                assert(b.replay.rule_at(m) == a.replay.rule_at(m + (middle - from)));
            }
        }
    }

    /// The last thing recorded is this choice, drawn without force.
    pub open spec fn just_drew(&self, other: Case, value: ChoiceModel) -> bool {
        &&& self.nodes@.len() == other.nodes@.len() + 1
        &&& self.nodes@.drop_last() == other.nodes@
        &&& self.nodes@.last().value@ == value
        &&& self.status == other.status
        &&& self.frozen == other.frozen
        &&& self.spans.open == other.spans.open
    }

    /// A draw with constraints gave `value`, and recorded it: the one that was to be taken,
    /// where playing back or force left no choice.
    pub open spec fn drew_by(
        &self,
        other: Case,
        k: Constraints,
        forced: Option<ChoiceModel>,
        value: ChoiceModel,
    ) -> bool {
        &&& self.adds_node(other, value, k, forced is Some)
        &&& forced is None ==> ruled(other.replay.rule_at(0), k, value)
        &&& match other.plan(k, true, forced) {
            Plan::Take(c) => value == c,
            Plan::Sample => true,
            Plan::Overrun => false,
        }
    }

    /// A draw failed: nothing was recorded, or a choice of the kind that was asked for.
    pub open spec fn stopped_with(&self, other: Case, fits: spec_fn(ChoiceModel) -> bool) -> bool {
        self.nodes@ == other.nodes@ || {
            &&& self.nodes@.len() == other.nodes@.len() + 1
            &&& self.nodes@.drop_last() == other.nodes@
            &&& fits(self.nodes@.last().value@)
        }
    }

    /// Where the value of a draw was left to chance, it is one that the generator led to; else
    /// the generator was not used.
    pub open spec fn rolled<N: Numerics>(
        &self,
        other: Case,
        k: Constraints,
        forced: Option<ChoiceModel>,
        weights: Seq<(Int, u64)>,
        candidates: Seq<Int>,
        value: ChoiceModel,
    ) -> bool {
        match other.plan(k, true, forced) {
            Plan::Sample => came_up::<N>(
                other.rng,
                k,
                weights,
                candidates,
                value,
                self.rng,
            ),
            _ => self.rng == other.rng,
        }
    }

    /// The next draw has no value: there is no room, or the simplest choices that were
    /// promised are used up.
    pub open spec fn refuses(&self) -> bool {
        self.full() || (self.replay.active() && self.replay.entry() is Simplest
            && self.replay.entry()->Simplest_count is Some
            && self.replay.entry()->Simplest_count->0 <= 0)
    }

    /// The simplest choice is laid down for the next draw.
    pub open spec fn simplest_next(&self) -> bool {
        self.replay.rule_at(0) == Rule::Simplest
    }

    /// A draw that ended the test case for want of room.
    pub open spec fn overran(&self) -> bool {
        self.status == Status::Overrun && self.frozen
    }

    /// An integer between the bounds.
    pub fn draw_integer<N: Numerics>(
        &mut self,
        numerics: &mut N,
        min_value: Option<Int>,
        max_value: Option<Int>,
        weights: &Vec<(Int, u64)>,
        candidates: &Vec<Int>,
        shrink_towards: Int,
    ) -> (r: Result<Int, StopTest>)
        requires
            old(self).wf(),
            crate::ordering::bounds_ordered(bound(min_value), bound(max_value)),
            weights_within(weights@, bound(min_value), bound(max_value)),
        ensures
            final(self).grown_from(*old(self)),
            r is Err ==> final(self).overran(),
            r is Err <==> old(self).refuses() || final(self).length > final(self).max_length,
            r is Err && old(self).replay.endless() ==> final(self).full(),
            r is Ok ==> crate::ordering::within(r->Ok_0@, bound(min_value), bound(max_value)),
            r is Ok ==> final(self).just_drew(*old(self), ChoiceModel::Integer(r->Ok_0@)),
            !old(self).full() && old(self).replay.active() && old(self).replay.entry() is Value
                && r is Ok && old(self).replay.entry()->Value_0@ is Integer
                && crate::ordering::within(
                old(self).replay.entry()->Value_0@->Integer_0,
                bound(min_value),
                bound(max_value),
            ) ==> r->Ok_0@ == old(self).replay.entry()->Value_0@->Integer_0,
            r is Ok ==> final(self).drew_by(
                *old(self),
                Constraints::Integer { min_value, max_value, shrink_towards },
                None,
                ChoiceModel::Integer(r->Ok_0@),
            ),
            r is Ok ==> final(self).rolled::<N>(
                *old(self),
                Constraints::Integer { min_value, max_value, shrink_towards },
                None,
                weights@,
                candidates@,
                ChoiceModel::Integer(r->Ok_0@),
            ),
            r is Err ==> final(self).stopped_with(*old(self), |c: ChoiceModel| c is Integer && crate::ordering::within(
                c->Integer_0,
                bound(min_value),
                bound(max_value),
            ) && integer_ruled(
                old(self).replay.rule_at(0),
                bound(min_value),
                bound(max_value),
                shrink_towards@,
                c->Integer_0,
            )),
    {
        let k = Constraints::Integer { min_value, max_value, shrink_towards };
        let result = self.draw(numerics, k, weights, candidates, true, None);
        proof {
            assert(self.nodes@.take(old(self).nodes@.len() as int) =~= old(self).nodes@);
            if result is Ok {
                assert(self.nodes@[old(self).nodes@.len() as int] == self.nodes@.last());
            }
        }
        match result {
            Ok(Choice::Integer(n)) => Ok(n),
            Ok(_) => Ok(Int::of(0)),
            Err(e) => Err(e),
        }
    }

    /// A boolean that is true with probability `p`, unless it is forced.
    pub fn draw_boolean<N: Numerics>(
        &mut self,
        numerics: &mut N,
        p: u64,
        forced: Option<bool>,
    ) -> (r: Result<bool, StopTest>)
        requires
            old(self).wf(),
        ensures
            final(self).grown_from(*old(self)),
            r is Err ==> final(self).overran(),
            r is Err <==> old(self).refuses() || final(self).length > final(self).max_length,
            r is Err && old(self).replay.endless() ==> final(self).full(),
            r is Ok && forced is Some ==> r->Ok_0 == forced->0,
            r is Ok && forced is None && float_le(p, 0) ==> !r->Ok_0,
            r is Ok && forced is None && float_le(ONE, p) ==> r->Ok_0,
            r is Ok ==> final(self).just_drew(*old(self), ChoiceModel::Boolean(r->Ok_0)),
            r is Ok ==> final(self).drew_by(
                *old(self),
                Constraints::Boolean { p },
                match forced {
                    Some(b) => Some(ChoiceModel::Boolean(b)),
                    None => None,
                },
                ChoiceModel::Boolean(r->Ok_0),
            ),
            r is Ok ==> final(self).rolled::<N>(
                *old(self),
                Constraints::Boolean { p },
                match forced {
                    Some(b) => Some(ChoiceModel::Boolean(b)),
                    None => None,
                },
                Seq::empty(),
                Seq::empty(),
                ChoiceModel::Boolean(r->Ok_0),
            ),
            r is Err ==> final(self).stopped_with(*old(self), |c: ChoiceModel| c is Boolean),
    {
        let weights: Vec<(Int, u64)> = Vec::new();
        let candidates: Vec<Int> = Vec::new();
        let forced_choice = match forced {
            Some(b) => Some(Choice::Boolean(b)),
            None => None,
        };
        let result = self.draw(
            numerics,
            Constraints::Boolean { p },
            &weights,
            &candidates,
            true,
            forced_choice,
        );
        proof {
            assert(self.nodes@.take(old(self).nodes@.len() as int) =~= old(self).nodes@);
            if result is Ok {
                assert(self.nodes@[old(self).nodes@.len() as int] == self.nodes@.last());
            }
            assert(weights@ =~= Seq::<(Int, u64)>::empty());
            assert(candidates@ =~= Seq::<Int>::empty());
        }
        match result {
            Ok(Choice::Boolean(b)) => Ok(b),
            Ok(_) => Ok(false),
            Err(e) => Err(e),
        }
    }

    /// A float between the bounds, as its bits.
    #[verifier::rlimit(30)]
    pub fn draw_float<N: Numerics>(&mut self, numerics: &mut N, bounds: FloatBounds) -> (r: Result<
        u64,
        StopTest,
    >)
        requires
            old(self).wf(),
            float_bounds_ordered(bounds),
        ensures
            final(self).grown_from(*old(self)),
            r is Err ==> final(self).overran(),
            r is Err <==> old(self).refuses() || final(self).length > final(self).max_length,
            r is Err && old(self).replay.endless() ==> final(self).full(),
            r is Ok ==> crate::provider::float_respects(r->Ok_0, bounds),
            r is Ok ==> final(self).just_drew(*old(self), ChoiceModel::Float(r->Ok_0)),
            r is Ok ==> final(self).drew_by(
                *old(self),
                Constraints::Float(bounds),
                None,
                ChoiceModel::Float(r->Ok_0),
            ),
            r is Ok ==> final(self).rolled::<N>(
                *old(self),
                Constraints::Float(bounds),
                None,
                Seq::empty(),
                Seq::empty(),
                ChoiceModel::Float(r->Ok_0),
            ),
            r is Err ==> final(self).stopped_with(*old(self), |c: ChoiceModel| c is Float),
    {
        let weights: Vec<(Int, u64)> = Vec::new();
        let candidates: Vec<Int> = Vec::new();
        let result = self.draw(
            numerics,
            Constraints::Float(bounds),
            &weights,
            &candidates,
            true,
            None,
        );
        proof {
            assert(self.nodes@.take(old(self).nodes@.len() as int) =~= old(self).nodes@);
            if result is Ok {
                assert(self.nodes@[old(self).nodes@.len() as int] == self.nodes@.last());
            }
            assert(weights@ =~= Seq::<(Int, u64)>::empty());
            assert(candidates@ =~= Seq::<Int>::empty());
        }
        match result {
            Ok(Choice::Float(f)) => Ok(f),
            Ok(_) => Ok(0),
            Err(e) => Err(e),
        }
    }

    /// A string over an alphabet, as its codepoints.
    pub fn draw_string<N: Numerics>(
        &mut self,
        numerics: &mut N,
        intervals: &IntervalSet,
        min_size: u64,
        max_size: u64,
    ) -> (r: Result<Vec<u32>, StopTest>)
        requires
            old(self).wf(),
            intervals.wf(),
            intervals.normal(),
            crate::choice::holds_codepoints(*intervals),
            min_size <= max_size,
            min_size <= u32::MAX,
        ensures
            final(self).grown_from(*old(self)),
            r is Err ==> final(self).overran(),
            r is Err ==> old(self).refuses() || final(self).length > final(self).max_length || (old(
                self).replay.active() && min_size >= BUFFER_SIZE),
            r is Err && old(self).replay.endless() && min_size < BUFFER_SIZE ==> final(self).full(),
            old(self).refuses() || final(self).length > final(self).max_length ==> r is Err,
            r is Ok ==> forall|i: int|
                0 <= i < r->Ok_0@.len() ==> intervals.has(#[trigger] r->Ok_0@[i] as int),
            r is Ok ==> min_size <= r->Ok_0@.len() <= max_size || (total(intervals.intervals@) == 0
                && r->Ok_0@.len() == 0),
            r is Ok ==> final(self).just_drew(*old(self), ChoiceModel::Text(r->Ok_0@)),
            r is Ok ==> {
                let k = final(self).nodes@.last().constraints;
                &&& k is Text && k->Text_intervals.intervals@ == intervals.intervals@
                &&& k->Text_min_size == min_size && k->Text_max_size == max_size
                &&& final(self).drew_by(*old(self), k, None, ChoiceModel::Text(r->Ok_0@))
            },
            r is Ok ==> final(self).rolled::<N>(
                *old(self),
                final(self).nodes@.last().constraints,
                None,
                Seq::empty(),
                Seq::empty(),
                ChoiceModel::Text(r->Ok_0@),
            ),
            r is Err ==> final(self).stopped_with(*old(self), |c: ChoiceModel| c is Text),
    {
        let weights: Vec<(Int, u64)> = Vec::new();
        let candidates: Vec<Int> = Vec::new();
        let copy = intervals.copy();
        proof {
            assert forall|x: int| #[trigger] copy.has(x) implies 0 <= x < crate::choice::CODEPOINT_LIMIT by {
                assert(intervals.has(x));
            }
        }
        let ghost k = Constraints::Text { intervals: copy, min_size, max_size };
        let result = self.draw(
            numerics,
            Constraints::Text { intervals: copy, min_size, max_size },
            &weights,
            &candidates,
            true,
            None,
        );
        proof {
            assert(self.nodes@.take(old(self).nodes@.len() as int) =~= old(self).nodes@);
            if result is Ok {
                assert(self.nodes@[old(self).nodes@.len() as int] == self.nodes@.last());
            }
            assert(weights@ =~= Seq::<(Int, u64)>::empty());
            assert(candidates@ =~= Seq::<Int>::empty());
        }
        match result {
            Ok(Choice::Text(t)) => {
                proof {
                    assert(respects(k, ChoiceModel::Text(t@)));
                    assert forall|i: int| 0 <= i < t@.len() implies intervals.has(
                        #[trigger] t@[i] as int,
                    ) by {
                        assert(copy.has(t@[i] as int));
                    }
                }
                Ok(t)
            },
            Ok(_) => Ok(Vec::new()),
            Err(e) => Err(e),
        }
    }

    /// Bytes, as many as the sizes permit.
    pub fn draw_bytes<N: Numerics>(
        &mut self,
        numerics: &mut N,
        min_size: u64,
        max_size: u64,
    ) -> (r: Result<Vec<u8>, StopTest>)
        requires
            old(self).wf(),
            min_size <= max_size,
            min_size <= u32::MAX,
        ensures
            final(self).grown_from(*old(self)),
            r is Err ==> final(self).overran(),
            r is Err ==> old(self).refuses() || final(self).length > final(self).max_length || (old(
                self).replay.active() && min_size >= BUFFER_SIZE),
            r is Err && old(self).replay.endless() && min_size < BUFFER_SIZE ==> final(self).full(),
            old(self).refuses() || final(self).length > final(self).max_length ==> r is Err,
            r is Ok ==> min_size <= r->Ok_0@.len() <= max_size,
            r is Ok ==> final(self).just_drew(*old(self), ChoiceModel::Bytes(r->Ok_0@)),
            r is Ok ==> final(self).drew_by(
                *old(self),
                Constraints::Bytes { min_size, max_size },
                None,
                ChoiceModel::Bytes(r->Ok_0@),
            ),
            r is Ok ==> final(self).rolled::<N>(
                *old(self),
                Constraints::Bytes { min_size, max_size },
                None,
                Seq::empty(),
                Seq::empty(),
                ChoiceModel::Bytes(r->Ok_0@),
            ),
            r is Err ==> final(self).stopped_with(*old(self), |c: ChoiceModel| c is Bytes),
    {
        let weights: Vec<(Int, u64)> = Vec::new();
        let candidates: Vec<Int> = Vec::new();
        let result = self.draw(
            numerics,
            Constraints::Bytes { min_size, max_size },
            &weights,
            &candidates,
            true,
            None,
        );
        proof {
            assert(self.nodes@.take(old(self).nodes@.len() as int) =~= old(self).nodes@);
            if result is Ok {
                assert(self.nodes@[old(self).nodes@.len() as int] == self.nodes@.last());
            }
            assert(weights@ =~= Seq::<(Int, u64)>::empty());
            assert(candidates@ =~= Seq::<Int>::empty());
        }
        match result {
            Ok(Choice::Bytes(b)) => Ok(b),
            Ok(_) => Ok(Vec::new()),
            Err(e) => Err(e),
        }
    }

    /// A position below `n`, or the forced one.
    pub fn choose_below<N: Numerics>(
        &mut self,
        numerics: &mut N,
        n: usize,
        forced: Option<usize>,
    ) -> (r: Result<usize, StopTest>)
        requires
            old(self).wf(),
            0 < n,
            forced is Some ==> forced->0 < n,
        ensures
            final(self).grown_from(*old(self)),
            r is Err ==> final(self).overran(),
            r is Err <==> old(self).refuses() || final(self).length > final(self).max_length,
            r is Err && old(self).replay.endless() ==> final(self).full(),
            r is Ok ==> r->Ok_0 < n,
            r is Ok && forced is Some ==> r->Ok_0 == forced->0,
            r is Ok ==> final(self).just_drew(*old(self), ChoiceModel::Integer(r->Ok_0 as int)),
            r is Ok ==> {
                let k = final(self).nodes@.last().constraints;
                &&& k is Integer && bound(k->Integer_min_value) == Some(0int)
                &&& bound(k->Integer_max_value) == Some(n - 1) && k->shrink_towards@ == 0
                &&& final(self).drew_by(
                    *old(self),
                    k,
                    match forced {
                        Some(i) => Some(ChoiceModel::Integer(i as int)),
                        None => None,
                    },
                    ChoiceModel::Integer(r->Ok_0 as int),
                )
            },
            r is Ok ==> final(self).rolled::<N>(
                *old(self),
                final(self).nodes@.last().constraints,
                match forced {
                    Some(i) => Some(ChoiceModel::Integer(i as int)),
                    None => None,
                },
                Seq::empty(),
                Seq::empty(),
                ChoiceModel::Integer(r->Ok_0 as int),
            ),
            r is Err ==> final(self).stopped_with(*old(self), |c: ChoiceModel| c is Integer && (forced is None ==> 0
                <= c->Integer_0 < n)),
    {
        let weights: Vec<(Int, u64)> = Vec::new();
        let candidates: Vec<Int> = Vec::new();
        let forced_choice = match forced {
            Some(i) => Some(Choice::Integer(Int::of_unsigned(i as u64))),
            None => None,
        };
        let k = Constraints::Integer {
            min_value: Some(Int::of(0)),
            max_value: Some(Int::of_unsigned((n - 1) as u64)),
            shrink_towards: Int::of(0),
        };
        let result = self.draw(numerics, k, &weights, &candidates, true, forced_choice);
        proof {
            assert(self.nodes@.take(old(self).nodes@.len() as int) =~= old(self).nodes@);
            if result is Ok {
                assert(self.nodes@[old(self).nodes@.len() as int] == self.nodes@.last());
            }
            assert(weights@ =~= Seq::<(Int, u64)>::empty());
            assert(candidates@ =~= Seq::<Int>::empty());
        }
        match result {
            Ok(Choice::Integer(i)) => {
                proof {
                    assert(0 <= i@ < n);
                }
                match i.to_u64() {
                    Some(at) => Ok(at as usize),
                    None => Ok(0),
                }
            },
            Ok(_) => Ok(0),
            Err(e) => Err(e),
        }
    }
}

// ---- laws -------------------------------------------------------------------

/// Playing back gives the choices that were recorded: the first of them answers a
/// draw that it fits, and the rest is left to be played back, still aligned.
pub proof fn replay_gives_the_recorded_choice(
    data: Case,
    next: Replay,
    k: Constraints,
    choices: Seq<ChoiceModel>,
)
    requires
        data.wf(),
        !data.full(),
        data.plays_back(choices),
        choices.len() > 0,
        k.fits_kind(choices[0]),
        k.permits(choices[0]),
        data.replay.steps_to(next, k, None),
    ensures
        data.plan(k, true, None) == Plan::Take(choices[0]),
        next.misaligned == data.replay.misaligned,
        next.prefix is Some,
        next.prefix->0@.len() == next.index + choices.len() - 1,
        forall|i: int|
            0 <= i < choices.len() - 1 ==> {
                let e = #[trigger] next.prefix->0@[next.index + i];
                e is Value && e->Value_0@ == choices[i + 1]
            },
{
    let p = data.replay.prefix->0@;
    let at = data.replay.index;
    assert(p[at + 0] is Value && p[at + 0]->Value_0@ == choices[0]);
    assert forall|i: int| 0 <= i < choices.len() - 1 implies {
        let e = #[trigger] next.prefix->0@[next.index + i];
        e is Value && e->Value_0@ == choices[i + 1]
    } by {
        assert(next.prefix->0@[next.index + i] == p[at + (i + 1)]);
    }
}

/// A record is played back to its end: as long as the same is asked for, the same choices
/// are drawn, and the new record is the old one.
pub proof fn record_is_played_back_to_its_end(
    cases: Seq<Case>,
    asked: Seq<Constraints>,
    drawn: Seq<ChoiceModel>,
    choices: Seq<ChoiceModel>,
)
    requires
        cases.len() == drawn.len() + 1,
        asked.len() == drawn.len(),
        drawn.len() <= choices.len(),
        cases[0].plays_back(choices),
        forall|i: int|
            0 <= i < drawn.len() ==> (#[trigger] cases[i + 1]).drew_next(
                cases[i],
                asked[i],
                drawn[i],
            ),
        forall|i: int|
            0 <= i < drawn.len() ==> (#[trigger] asked[i]).fits_kind(choices[i])
                && asked[i].permits(choices[i]),
    ensures
        drawn == choices.take(drawn.len() as int),
        cases.last().plays_back(choices.skip(drawn.len() as int)),
        cases.last().replay.misaligned == cases[0].replay.misaligned,
        recorded(cases.last().nodes@) == recorded(cases[0].nodes@) + drawn,
    decreases drawn.len(),
{
    let n = drawn.len() as int;
    if n == 0 {
        assert(drawn =~= choices.take(0));
        assert(choices.skip(0) =~= choices);
        assert(recorded(cases[0].nodes@) =~= recorded(cases[0].nodes@) + drawn);
    } else {
        assert forall|i: int| 0 <= i < n - 1 implies (#[trigger] cases.drop_last()[i + 1]).drew_next(
            cases.drop_last()[i],
            asked.drop_last()[i],
            drawn.drop_last()[i],
        ) by {
            assert(cases[i + 1].drew_next(cases[i], asked[i], drawn[i]));
        }
        assert forall|i: int| 0 <= i < n - 1 implies (#[trigger] asked.drop_last()[i]).fits_kind(
            choices[i],
        ) && asked.drop_last()[i].permits(choices[i]) by {
            assert(asked[i].fits_kind(choices[i]));
        }
        record_is_played_back_to_its_end(
            cases.drop_last(),
            asked.drop_last(),
            drawn.drop_last(),
            choices,
        );
        let before = cases[n - 1];
        let after = cases[n];
        assert(cases.drop_last().last() == before);
        assert(cases[(n - 1) + 1].drew_next(before, asked[n - 1], drawn[n - 1]));
        let rest = choices.skip(n - 1);
        assert(rest[0] == choices[n - 1]);
        let at = before.replay.index;
        let p = before.replay.prefix->0@;
        assert(p[at + 0] is Value && p[at + 0]->Value_0@ == rest[0]);
        assert(drawn[n - 1] == choices[n - 1]);
        assert(drawn =~= choices.take(n));
        assert forall|i: int| 0 <= i < choices.skip(n).len() implies {
            let e = #[trigger] after.replay.prefix->0@[after.replay.index + i];
            e is Value && e->Value_0@ == choices.skip(n)[i]
        } by {
            let e = p[at + (i + 1)];
            assert(e is Value && e->Value_0@ == rest[i + 1]);
            assert(after.replay.prefix->0@[after.replay.index + i] == e);
        }
        assert(recorded(after.nodes@) =~= recorded(before.nodes@).push(drawn[n - 1]));
        assert(recorded(after.nodes@) =~= recorded(cases[0].nodes@) + drawn);
    }
}

/// A choice that does not fit where it is asked for is replaced by the simplest
/// one, and the test case knows that it is no longer aligned.
pub proof fn replay_replaces_what_does_not_fit(data: Case, next: Replay, k: Constraints)
    requires
        data.wf(),
        !data.full(),
        data.replay.active(),
        data.replay.entry() is Value,
        !(k.fits_kind(data.replay.entry()->Value_0@) && k.permits(data.replay.entry()->Value_0@)),
        data.replay.steps_to(next, k, None),
    ensures
        next.misaligned,
        data.plan(k, true, None) == (match simplest_of(k) {
            Ok(c) => Plan::Take(c),
            Err(_) => Plan::Overrun,
        }),
{
}

/// An ended test case leaves no span open: every start in its record has its end.
pub proof fn ended_spans_are_balanced(before: Case, after: Case)
    requires
        before.wf(),
        after.wf(),
        !before.frozen,
        after.ended_from(before, after.status, after.interesting_origin),
    ensures
        open_after(after.spans.trail@) == 0,
        choices_in(after.spans.trail@) == before.nodes@.len(),
        after.spans.trail@.take(before.spans.trail@.len() as int) == before.spans.trail@,
{
    assert(after.spans.trail@.take(before.spans.trail@.len() as int) =~= before.spans.trail@);
}

// ---- the sealed test case ---------------------------------------------------

/// A test case that is always in good order, whoever it is handed to: every
/// operation takes it and hands it back.
#[derive(Debug)]
pub struct ConjectureData {
    case: Case,
}

impl ConjectureData {
    #[verifier::type_invariant]
    spec fn in_order(&self) -> bool {
        self.case.wf()
    }

    /// What the test case holds.
    pub closed spec fn case(&self) -> Case {
        self.case
    }

    pub(crate) fn seal(case: Case) -> (r: ConjectureData)
        requires
            case.wf(),
        ensures
            r.case() == case,
    {
        ConjectureData { case }
    }

    pub(crate) fn unseal(self) -> (r: Case)
        ensures
            r == self.case(),
            r.wf(),
    {
        proof {
            use_type_invariant(&self);
        }
        self.case
    }

    /// The test case, to look at.
    pub fn as_case(&self) -> (r: &Case)
        ensures
            *r == self.case(),
            r.wf(),
    {
        proof {
            use_type_invariant(self);
        }
        &self.case
    }

    /// The nodes recorded so far.
    pub fn nodes(&self) -> (r: &Vec<Node>)
        ensures
            *r == self.case().nodes,
            nodes_wf(r@),
    {
        proof {
            use_type_invariant(self);
        }
        &self.case.nodes
    }

    /// How it has ended, as far as it has.
    pub fn status(&self) -> (r: Status)
        ensures
            r == self.case().status,
    {
        self.case.status
    }

    /// A test case with nothing drawn yet and its outermost span open.
    pub fn new(
        seed: u64,
        prefix: Option<Vec<PrefixEntry>>,
        max_choices: Option<usize>,
        buffer_limit: Option<u64>,
    ) -> (r: ConjectureData)
        ensures
            r.case().fresh(),
            r.case().max_length == (match buffer_limit {
                Some(n) => n,
                None => BUFFER_SIZE,
            }),
            r.case().max_choices == max_choices,
            r.case().replay.prefix == prefix,
    {
        ConjectureData { case: Case::new(seed, prefix, max_choices, buffer_limit) }
    }

    /// A test case with random choices.
    pub fn new_generate(seed: u64, buffer_limit: Option<u64>) -> (r: ConjectureData)
        ensures
            r.case().fresh(),
            r.case().replay.prefix is None,
            r.case().max_choices is None,
    {
        ConjectureData { case: Case::new_generate(seed, buffer_limit) }
    }

    /// A test case in which every choice is the simplest one.
    pub fn new_simplest(buffer_limit: Option<u64>) -> (r: ConjectureData)
        ensures
            r.case().fresh(),
            r.case().replay.prefix is Some,
            r.case().replay.prefix->0@ == seq![PrefixEntry::Simplest { count: None }],
            r.case().max_choices is None,
    {
        ConjectureData { case: Case::new_simplest(buffer_limit) }
    }

    /// A test case that plays back choices and ends behind the last of them.
    pub fn new_for_choices(
        choices: &Vec<Choice>,
        seed: u64,
        buffer_limit: Option<u64>,
    ) -> (r: ConjectureData)
        ensures
            r.case().fresh(),
            r.case().max_choices == Some(choices@.len() as usize),
            r.case().replay.prefix is Some,
            r.case().plays_back(crate::choice::models(choices@)),
    {
        ConjectureData { case: Case::new_for_choices(choices, seed, buffer_limit) }
    }

    /// A test case that plays back a prefix which may hold templates.
    pub fn for_choices(
        prefix: Vec<PrefixEntry>,
        seed: u64,
        buffer_limit: Option<u64>,
    ) -> (r: ConjectureData)
        ensures
            r.case().fresh(),
            r.case().replay.prefix == Some(prefix),
            r.case().max_choices == (match prefix_count(prefix@) {
                Some(n) => Some(capped_count(n)),
                None => None::<usize>,
            }),
    {
        ConjectureData { case: Case::for_choices(prefix, seed, buffer_limit) }
    }

    /// Ends the test case, closing all its spans.
    pub fn freeze(self) -> (r: ConjectureData)
        ensures
            r.case().ended_from(self.case(), self.case().status, self.case().interesting_origin),
    {
        proof {
            use_type_invariant(&self);
        }
        let mut case = self.case;
        case.freeze();
        ConjectureData { case }
    }

    /// Ends the test case with a status.
    pub fn conclude_test(self, status: Status, origin: Option<u64>) -> (r: (ConjectureData, StopTest))
        ensures
            r.0.case().ended_from(self.case(), status, origin),
            r.1 == (StopTest { testcounter: self.case().testcounter }),
    {
        proof {
            use_type_invariant(&self);
        }
        let mut case = self.case;
        let outcome = case.conclude_test(status, origin);
        (ConjectureData { case }, outcome)
    }

    pub fn mark_invalid(self) -> (r: (ConjectureData, StopTest))
        ensures
            r.0.case().ended_from(self.case(), Status::Invalid, None),
            r.1 == (StopTest { testcounter: self.case().testcounter }),
    {
        proof {
            use_type_invariant(&self);
        }
        let mut case = self.case;
        let outcome = case.mark_invalid();
        (ConjectureData { case }, outcome)
    }

    pub fn mark_overrun(self) -> (r: (ConjectureData, StopTest))
        ensures
            r.0.case().ended_from(self.case(), Status::Overrun, None),
            r.1 == (StopTest { testcounter: self.case().testcounter }),
    {
        proof {
            use_type_invariant(&self);
        }
        let mut case = self.case;
        let outcome = case.mark_overrun();
        (ConjectureData { case }, outcome)
    }

    pub fn mark_interesting(self, origin: u64) -> (r: (ConjectureData, StopTest))
        ensures
            r.0.case().ended_from(self.case(), Status::Interesting, Some(origin)),
            r.1 == (StopTest { testcounter: self.case().testcounter }),
    {
        proof {
            use_type_invariant(&self);
        }
        let mut case = self.case;
        let outcome = case.mark_interesting(origin);
        (ConjectureData { case }, outcome)
    }

    /// Starts a span, whether or not the test case is over.
    pub fn open_span(self, label: u64) -> (r: ConjectureData)
        ensures
            r.case().same_but_spans(self.case()),
            r.case().spans.open == self.case().spans.open + 1,
            r.case().spans.trail@ == self.case().spans.trail@.push(
                Trail::Start(label_number(self.case().spans.labels@, label) as usize),
            ),
            r.case().spans.max_depth == (if self.case().spans.open > self.case().spans.max_depth {
                self.case().spans.open
            } else {
                self.case().spans.max_depth
            }),
    {
        proof {
            use_type_invariant(&self);
        }
        let mut case = self.case;
        case.open_span(label);
        ConjectureData { case }
    }

    /// Starts a span, unless the test case is over.
    pub fn start_span(self, label: u64) -> (r: (ConjectureData, Result<(), Frozen>))
        ensures
            r.1 is Err <==> self.case().frozen,
            r.0.case().same_but_spans(self.case()),
            self.case().frozen ==> r.0.case() == self.case(),
            !self.case().frozen ==> r.0.case().spans.open == self.case().spans.open + 1
                && r.0.case().spans.trail@ == self.case().spans.trail@.push(
                Trail::Start(label_number(self.case().spans.labels@, label) as usize),
            ),
    {
        proof {
            use_type_invariant(&self);
        }
        let mut case = self.case;
        let outcome = case.start_span(label);
        (ConjectureData { case }, outcome)
    }

    /// Ends the innermost span. Nothing happens when the test case is over or no span
    /// is open.
    pub fn stop_span(self, discard: bool) -> (r: ConjectureData)
        ensures
            r.case().same_but_spans(self.case()),
            self.case().frozen || self.case().spans.open == 0 ==> r.case() == self.case(),
            !self.case().frozen && self.case().spans.open > 0 ==> {
                &&& r.case().spans.open == self.case().spans.open - 1
                &&& r.case().spans.trail@ == self.case().spans.trail@.push(Trail::Stop { discard })
                &&& r.case().spans.has_discards == (self.case().spans.has_discards || discard)
                &&& r.case().spans.max_depth == self.case().spans.max_depth
            },
    {
        proof {
            use_type_invariant(&self);
        }
        let mut case = self.case;
        case.stop_span(discard);
        ConjectureData { case }
    }

    /// Notes that something drawn was thrown away.
    pub fn note_discard(self) -> (r: ConjectureData)
        ensures
            r.case().same_but_spans(self.case()),
            r.case().spans.has_discards,
            r.case().spans.trail == self.case().spans.trail,
            r.case().spans.open == self.case().spans.open,
    {
        proof {
            use_type_invariant(&self);
        }
        let mut case = self.case;
        case.note_discard();
        ConjectureData { case }
    }

    /// Appends to the output, unless the test case is over.
    pub fn note(self, text: &str) -> (r: (ConjectureData, Result<(), Frozen>))
        ensures
            r.1 is Err <==> self.case().frozen,
            r.1 is Err ==> r.0.case() == self.case(),
            r.1 is Ok ==> r.0.case().output@ == self.case().output@ + text@,
            r.0.case().nodes == self.case().nodes,
            r.0.case().status == self.case().status,
    {
        proof {
            use_type_invariant(&self);
        }
        let mut case = self.case;
        let outcome = case.note(text);
        (ConjectureData { case }, outcome)
    }

    /// Draws a choice: from what is played back, else the forced value, else a random
    /// one. An observed draw is recorded.
    pub fn draw<N: Numerics>(
        self,
        numerics: &mut N,
        constraints: Constraints,
        weights: &Vec<(Int, u64)>,
        candidates: &Vec<Int>,
        observe: bool,
        forced: Option<Choice>,
    ) -> (r: (ConjectureData, Result<Choice, StopTest>))
        requires
            constraints.wf(),
            satisfiable(constraints),
            forced is Some ==> constraints.fits_kind(forced->0@),
        ensures
            r.0.case().same_settings(self.case()),
            r.1 is Err ==> r.1->Err_0 == (StopTest { testcounter: self.case().testcounter })
                && r.0.case().status == Status::Overrun && r.0.case().frozen,
            !self.case().full() && observe && self.case().replay.active() ==> self.case().replay.steps_to(
                r.0.case().replay,
                constraints,
                choice_model(forced),
            ),
            self.case().full() || !observe || !self.case().replay.active() ==> r.0.case().replay
                == self.case().replay,
            match self.case().plan(constraints, observe, choice_model(forced)) {
                Plan::Overrun => r.1 is Err && r.0.case().nodes == self.case().nodes,
                Plan::Take(c) => {
                    &&& r.0.case().draw_recorded(
                        self.case(),
                        c,
                        constraints,
                        observe,
                        forced is Some,
                    )
                    &&& r.1 is Ok <==> !observe || r.0.case().length <= r.0.case().max_length
                    &&& r.1 is Ok ==> r.1->Ok_0@ == c
                },
                Plan::Sample => {
                    &&& r.1 is Ok <==> !observe || r.0.case().length <= r.0.case().max_length
                    &&& r.1 is Ok ==> r.0.case().draw_recorded(
                        self.case(),
                        r.1->Ok_0@,
                        constraints,
                        observe,
                        false,
                    )
                    &&& r.1 is Ok ==> came_up::<N>(
                        self.case().rng,
                        constraints,
                        weights@,
                        candidates@,
                        r.1->Ok_0@,
                        r.0.case().rng,
                    )
                    &&& r.1 is Err ==> r.0.case().nodes@.len() == self.case().nodes@.len() + 1
                        && r.0.case().nodes@.drop_last() == self.case().nodes@
                },
            },
            r.0.case().obeys(self.case()),
            r.1 is Ok ==> constraints.fits_kind(r.1->Ok_0@),
            r.1 is Ok && forced is None && (!(constraints is Integer) || weights_within(
                weights@,
                bound(constraints->Integer_min_value),
                bound(constraints->Integer_max_value),
            )) ==> respects(constraints, r.1->Ok_0@),
    {
        proof {
            use_type_invariant(&self);
        }
        let mut case = self.case;
        let outcome = case.draw(numerics, constraints, weights, candidates, observe, forced);
        (ConjectureData { case }, outcome)
    }

    /// An integer between the bounds.
    pub fn draw_integer<N: Numerics>(
        self,
        numerics: &mut N,
        min_value: Option<Int>,
        max_value: Option<Int>,
        weights: &Vec<(Int, u64)>,
        candidates: &Vec<Int>,
        shrink_towards: Int,
    ) -> (r: (ConjectureData, Result<Int, StopTest>))
        requires
            crate::ordering::bounds_ordered(bound(min_value), bound(max_value)),
            weights_within(weights@, bound(min_value), bound(max_value)),
        ensures
            r.0.case().grown_from(self.case()),
            r.1 is Err ==> r.0.case().overran(),
            r.1 is Err <==> self.case().refuses() || r.0.case().length > r.0.case().max_length,
            r.1 is Ok ==> crate::ordering::within(r.1->Ok_0@, bound(min_value), bound(max_value)),
            r.1 is Ok ==> r.0.case().just_drew(self.case(), ChoiceModel::Integer(r.1->Ok_0@)),
            r.1 is Ok ==> r.0.case().drew_by(
                self.case(),
                Constraints::Integer { min_value, max_value, shrink_towards },
                None,
                ChoiceModel::Integer(r.1->Ok_0@),
            ),
            !self.case().full() && self.case().replay.active() && self.case().replay.entry() is Value
                && r.1 is Ok && self.case().replay.entry()->Value_0@ is Integer
                && crate::ordering::within(
                self.case().replay.entry()->Value_0@->Integer_0,
                bound(min_value),
                bound(max_value),
            ) ==> r.1->Ok_0@ == self.case().replay.entry()->Value_0@->Integer_0,
            r.1 is Ok ==> r.0.case().rolled::<N>(
                self.case(),
                Constraints::Integer { min_value, max_value, shrink_towards },
                None,
                weights@,
                candidates@,
                ChoiceModel::Integer(r.1->Ok_0@),
            ),
    {
        proof {
            use_type_invariant(&self);
        }
        let mut case = self.case;
        let outcome = case.draw_integer(numerics, min_value, max_value, weights, candidates, shrink_towards);
        (ConjectureData { case }, outcome)
    }

    /// A boolean that is true with probability `p`, unless it is forced.
    pub fn draw_boolean<N: Numerics>(
        self,
        numerics: &mut N,
        p: u64,
        forced: Option<bool>,
    ) -> (r: (ConjectureData, Result<bool, StopTest>))
        ensures
            r.0.case().grown_from(self.case()),
            r.1 is Err ==> r.0.case().overran(),
            r.1 is Err <==> self.case().refuses() || r.0.case().length > r.0.case().max_length,
            r.1 is Ok && forced is Some ==> r.1->Ok_0 == forced->0,
            r.1 is Ok && forced is None && float_le(p, 0) ==> !r.1->Ok_0,
            r.1 is Ok && forced is None && float_le(ONE, p) ==> r.1->Ok_0,
            r.1 is Ok ==> r.0.case().just_drew(self.case(), ChoiceModel::Boolean(r.1->Ok_0)),
            r.1 is Ok ==> r.0.case().drew_by(
                self.case(),
                Constraints::Boolean { p },
                match forced {
                    Some(b) => Some(ChoiceModel::Boolean(b)),
                    None => None,
                },
                ChoiceModel::Boolean(r.1->Ok_0),
            ),
            r.1 is Ok ==> r.0.case().rolled::<N>(
                self.case(),
                Constraints::Boolean { p },
                match forced {
                    Some(b) => Some(ChoiceModel::Boolean(b)),
                    None => None,
                },
                Seq::empty(),
                Seq::empty(),
                ChoiceModel::Boolean(r.1->Ok_0),
            ),
    {
        proof {
            use_type_invariant(&self);
        }
        let mut case = self.case;
        let outcome = case.draw_boolean(numerics, p, forced);
        (ConjectureData { case }, outcome)
    }

    /// A float between the bounds, as its bits.
    pub fn draw_float<N: Numerics>(self, numerics: &mut N, bounds: FloatBounds) -> (r: (ConjectureData, Result<u64, StopTest>))
        requires
            float_bounds_ordered(bounds),
        ensures
            r.0.case().grown_from(self.case()),
            r.1 is Err ==> r.0.case().overran(),
            r.1 is Err <==> self.case().refuses() || r.0.case().length > r.0.case().max_length,
            r.1 is Ok ==> crate::provider::float_respects(r.1->Ok_0, bounds),
            r.1 is Ok ==> r.0.case().just_drew(self.case(), ChoiceModel::Float(r.1->Ok_0)),
            r.1 is Ok ==> r.0.case().drew_by(
                self.case(),
                Constraints::Float(bounds),
                None,
                ChoiceModel::Float(r.1->Ok_0),
            ),
            r.1 is Ok ==> r.0.case().rolled::<N>(
                self.case(),
                Constraints::Float(bounds),
                None,
                Seq::empty(),
                Seq::empty(),
                ChoiceModel::Float(r.1->Ok_0),
            ),
    {
        proof {
            use_type_invariant(&self);
        }
        let mut case = self.case;
        let outcome = case.draw_float(numerics, bounds);
        (ConjectureData { case }, outcome)
    }

    /// A string over an alphabet, as its codepoints.
    pub fn draw_string<N: Numerics>(
        self,
        numerics: &mut N,
        intervals: &IntervalSet,
        min_size: u64,
        max_size: u64,
    ) -> (r: (ConjectureData, Result<Vec<u32>, StopTest>))
        requires
            intervals.wf(),
            intervals.normal(),
            crate::choice::holds_codepoints(*intervals),
            min_size <= max_size,
            min_size <= u32::MAX,
        ensures
            r.0.case().grown_from(self.case()),
            r.1 is Err ==> r.0.case().overran(),
            r.1 is Err ==> self.case().refuses() || r.0.case().length > r.0.case().max_length || (self.case().replay.active() && min_size >= BUFFER_SIZE),
            self.case().refuses() || r.0.case().length > r.0.case().max_length ==> r.1 is Err,
            r.1 is Ok ==> forall|i: int|
                0 <= i < r.1->Ok_0@.len() ==> intervals.has(#[trigger] r.1->Ok_0@[i] as int),
            r.1 is Ok ==> min_size <= r.1->Ok_0@.len() <= max_size || (total(intervals.intervals@) == 0
                && r.1->Ok_0@.len() == 0),
            r.1 is Ok ==> r.0.case().just_drew(self.case(), ChoiceModel::Text(r.1->Ok_0@)),
            r.1 is Ok ==> {
                let k = r.0.case().nodes@.last().constraints;
                &&& k is Text && k->Text_intervals.intervals@ == intervals.intervals@
                &&& k->Text_min_size == min_size && k->Text_max_size == max_size
                &&& r.0.case().drew_by(self.case(), k, None, ChoiceModel::Text(r.1->Ok_0@))
            },
            r.1 is Ok ==> r.0.case().rolled::<N>(
                self.case(),
                r.0.case().nodes@.last().constraints,
                None,
                Seq::empty(),
                Seq::empty(),
                ChoiceModel::Text(r.1->Ok_0@),
            ),
    {
        proof {
            use_type_invariant(&self);
        }
        let mut case = self.case;
        let outcome = case.draw_string(numerics, intervals, min_size, max_size);
        (ConjectureData { case }, outcome)
    }

    /// Bytes, as many as the sizes permit.
    pub fn draw_bytes<N: Numerics>(
        self,
        numerics: &mut N,
        min_size: u64,
        max_size: u64,
    ) -> (r: (ConjectureData, Result<Vec<u8>, StopTest>))
        requires
            min_size <= max_size,
            min_size <= u32::MAX,
        ensures
            r.0.case().grown_from(self.case()),
            r.1 is Err ==> r.0.case().overran(),
            r.1 is Err ==> self.case().refuses() || r.0.case().length > r.0.case().max_length || (self.case().replay.active() && min_size >= BUFFER_SIZE),
            self.case().refuses() || r.0.case().length > r.0.case().max_length ==> r.1 is Err,
            r.1 is Ok ==> min_size <= r.1->Ok_0@.len() <= max_size,
            r.1 is Ok ==> r.0.case().just_drew(self.case(), ChoiceModel::Bytes(r.1->Ok_0@)),
            r.1 is Ok ==> r.0.case().drew_by(
                self.case(),
                Constraints::Bytes { min_size, max_size },
                None,
                ChoiceModel::Bytes(r.1->Ok_0@),
            ),
            r.1 is Ok ==> r.0.case().rolled::<N>(
                self.case(),
                Constraints::Bytes { min_size, max_size },
                None,
                Seq::empty(),
                Seq::empty(),
                ChoiceModel::Bytes(r.1->Ok_0@),
            ),
    {
        proof {
            use_type_invariant(&self);
        }
        let mut case = self.case;
        let outcome = case.draw_bytes(numerics, min_size, max_size);
        (ConjectureData { case }, outcome)
    }

    /// A position below `n`, or the forced one.
    pub fn choose_below<N: Numerics>(
        self,
        numerics: &mut N,
        n: usize,
        forced: Option<usize>,
    ) -> (r: (ConjectureData, Result<usize, StopTest>))
        requires
            0 < n,
            forced is Some ==> forced->0 < n,
        ensures
            r.0.case().grown_from(self.case()),
            r.1 is Err ==> r.0.case().overran(),
            r.1 is Err <==> self.case().refuses() || r.0.case().length > r.0.case().max_length,
            r.1 is Ok ==> r.1->Ok_0 < n,
            r.1 is Ok && forced is Some ==> r.1->Ok_0 == forced->0,
            r.1 is Ok ==> r.0.case().just_drew(self.case(), ChoiceModel::Integer(r.1->Ok_0 as int)),
            r.1 is Ok ==> {
                let k = r.0.case().nodes@.last().constraints;
                &&& k is Integer && bound(k->Integer_min_value) == Some(0int)
                &&& bound(k->Integer_max_value) == Some(n - 1) && k->shrink_towards@ == 0
                &&& r.0.case().drew_by(
                    self.case(),
                    k,
                    match forced {
                        Some(i) => Some(ChoiceModel::Integer(i as int)),
                        None => None,
                    },
                    ChoiceModel::Integer(r.1->Ok_0 as int),
                )
            },
            r.1 is Ok ==> r.0.case().rolled::<N>(
                self.case(),
                r.0.case().nodes@.last().constraints,
                match forced {
                    Some(i) => Some(ChoiceModel::Integer(i as int)),
                    None => None,
                },
                Seq::empty(),
                Seq::empty(),
                ChoiceModel::Integer(r.1->Ok_0 as int),
            ),
    {
        proof {
            use_type_invariant(&self);
        }
        let mut case = self.case;
        let outcome = case.choose_below(numerics, n, forced);
        (ConjectureData { case }, outcome)
    }

    /// Whether draws are nested more than `limit` deep.
    pub fn deeper_than(&self, limit: usize) -> (r: bool)
        ensures
            r == (self.case().spans.depth() > limit),
    {
        self.case.deeper_than(limit)
    }

    pub fn status_is_valid(&self) -> (r: bool)
        ensures
            r == (self.case().status == Status::Valid),
    {
        self.case.status_is_valid()
    }

    pub fn status_is_overrun(&self) -> (r: bool)
        ensures
            r == (self.case().status == Status::Overrun),
    {
        self.case.status_is_overrun()
    }

    /// The choices recorded so far.
    pub fn choices(&self) -> (r: Vec<Choice>)
        ensures
            crate::choice::models(r@) == recorded(self.case().nodes@),
    {
        self.case.choices()
    }
}

} // verus!
