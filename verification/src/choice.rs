//! Single choices, what they may be, and their complexity index.
//!
//! A test case is a sequence of typed choices. Each choice comes with the
//! constraints it was made under; under given constraints it has an index, zero
//! for the simplest one, by which choices shrink.
use crate::floats::{
    abs_bits, float_at, float_clamp, float_clamped, float_le, float_lt, float_permitted,
    float_survives_its_encoding, float_to_lex, le, lex_of, lex_to_float, lt, magnitude_bits,
    negate, negated_bits, permitted_float, FloatBounds, ONE, SIGN, TINY,
};
use crate::integer::Int;
use crate::intervalset::{
    from_shrink_order, member_survives_its_position, nth, ordinal, position_survives_its_member,
    shrink_order_is_a_bijection, shrink_order_marks_are_ordered, to_shrink_order, total,
    IntervalError, IntervalSet,
};
use crate::ordering::{
    bound, collection_index_from_orders, collection_index_identifies_the_sequence,
    collection_index_of, collection_too_large, collection_value_to_orders, int_at_index,
    int_from_index, int_index_of, int_to_index, int_value_survives_its_index, letters_valid,
    position_is_within_its_length, shorter_count, shorter_count_grows, values, within, BUFFER_SIZE,
};
use vstd::prelude::*;

verus! {

/// Two to the 64th power: the weight of a float's sign in its index.
pub const INDEX_SIGN: u128 = 0x1_0000_0000_0000_0000;

/// Strings hold codepoints below this.
pub const CODEPOINT_LIMIT: u32 = 0x11_0000;

/// One choice. Floats are carried as their bits, strings as their codepoints.
#[derive(Debug)]
pub enum Choice {
    Integer(Int),
    Boolean(bool),
    Float(u64),
    Text(Vec<u32>),
    Bytes(Vec<u8>),
}

/// What a choice is, apart from how it is kept in memory.
pub enum ChoiceModel {
    Integer(int),
    Boolean(bool),
    Float(u64),
    Text(Seq<u32>),
    Bytes(Seq<u8>),
}

impl View for Choice {
    type V = ChoiceModel;

    open spec fn view(&self) -> ChoiceModel {
        match self {
            Choice::Integer(n) => ChoiceModel::Integer(n@),
            Choice::Boolean(b) => ChoiceModel::Boolean(*b),
            Choice::Float(f) => ChoiceModel::Float(*f),
            Choice::Text(t) => ChoiceModel::Text(t@),
            Choice::Bytes(b) => ChoiceModel::Bytes(b@),
        }
    }
}

/// What a vector of choices is.
pub open spec fn models(s: Seq<Choice>) -> Seq<ChoiceModel> {
    s.map_values(|c: Choice| c@)
}

/// What a choice has to keep.
#[derive(Debug)]
pub enum Constraints {
    Integer { min_value: Option<Int>, max_value: Option<Int>, shrink_towards: Int },
    /// The probability of `true`, as the bits of a float.
    Boolean { p: u64 },
    Float(FloatBounds),
    Text { intervals: IntervalSet, min_size: u64, max_size: u64 },
    Bytes { min_size: u64, max_size: u64 },
}

/// Why a choice has no index, or an index no choice.
#[derive(Clone, Copy, Debug, PartialEq, Eq, Structural)]
pub enum ChoiceError {
    /// The choice is not of the kind that the constraints are for.
    WrongKind,
    /// A character is not in the alphabet.
    Interval(IntervalError),
    /// The sequence would be too long.
    TooLarge,
}

impl Constraints {
    /// The name of the kind of choices that the constraints are for.
    pub open spec fn kind_name(&self) -> Seq<char> {
        match self {
            Constraints::Integer { .. } => "integer"@,
            Constraints::Boolean { .. } => "boolean"@,
            Constraints::Float(_) => "float"@,
            Constraints::Text { .. } => "string"@,
            Constraints::Bytes { .. } => "bytes"@,
        }
    }

    pub fn kind(&self) -> (r: &'static str)
        ensures
            r@ == self.kind_name(),
    {
        match self {
            Constraints::Integer { .. } => "integer",
            Constraints::Boolean { .. } => "boolean",
            Constraints::Float(_) => "float",
            Constraints::Text { .. } => "string",
            Constraints::Bytes { .. } => "bytes",
        }
    }

    /// Alphabets are in good order, and sizes small enough to be counted.
    pub open spec fn wf(&self) -> bool {
        match self {
            Constraints::Text { intervals, min_size, .. } => intervals.wf() && intervals.normal()
                && *min_size <= u32::MAX,
            Constraints::Bytes { min_size, .. } => *min_size <= u32::MAX,
            _ => true,
        }
    }

    /// The constraints are for choices of this kind.
    pub open spec fn fits_kind(&self, c: ChoiceModel) -> bool {
        match (self, c) {
            (Constraints::Integer { .. }, ChoiceModel::Integer(_)) => true,
            (Constraints::Boolean { .. }, ChoiceModel::Boolean(_)) => true,
            (Constraints::Float(_), ChoiceModel::Float(_)) => true,
            (Constraints::Text { .. }, ChoiceModel::Text(_)) => true,
            (Constraints::Bytes { .. }, ChoiceModel::Bytes(_)) => true,
            _ => false,
        }
    }

    /// The choice keeps the constraints.
    pub open spec fn permits(&self, c: ChoiceModel) -> bool {
        match (self, c) {
            (
                Constraints::Integer { min_value, max_value, .. },
                ChoiceModel::Integer(n),
            ) => within(n, bound(*min_value), bound(*max_value)),
            (Constraints::Boolean { p }, ChoiceModel::Boolean(b)) => {
                if float_le(*p, 0) {
                    !b
                } else if float_le(ONE, *p) {
                    b
                } else {
                    true
                }
            },
            (Constraints::Float(bounds), ChoiceModel::Float(f)) => float_permitted(f, *bounds),
            (Constraints::Text { intervals, min_size, max_size }, ChoiceModel::Text(t)) => {
                &&& *min_size <= t.len() <= *max_size
                &&& forall|i: int| 0 <= i < t.len() ==> intervals.has(#[trigger] t[i] as int)
            },
            (Constraints::Bytes { min_size, max_size }, ChoiceModel::Bytes(b)) => *min_size
                <= b.len() <= *max_size,
            _ => false,
        }
    }
}

/// Both outcomes of a boolean choice are likely enough to be told apart.
pub open spec fn both_likely(p: u64) -> bool {
    float_lt(TINY, p) && float_lt(p, ONE)
}

/// The positions of a string's characters in the shrink order of the alphabet.
pub open spec fn text_orders(t: Seq<u32>, set: IntervalSet) -> Seq<int> {
    t.map_values(
        |c: u32|
            to_shrink_order(
                ordinal(set.intervals@, c as int)->0,
                set.idx_of_zero as int,
                set.idx_of_z as int,
            ),
    )
}

/// The values of a byte string's bytes.
pub open spec fn byte_orders(b: Seq<u8>) -> Seq<int> {
    b.map_values(|x: u8| x as int)
}

/// The index of a float: its lexical encoding, with the sign in front.
pub open spec fn float_index_of(f: u64) -> int {
    if f >= SIGN {
        INDEX_SIGN + lex_of(magnitude_bits(f))
    } else {
        lex_of(f)
    }
}

/// The float that an index stands for, before any bounds.
pub open spec fn float_at_index(index: int) -> u64 {
    let f = float_at((index % INDEX_SIGN as int) as u64) as u64;
    if 0 <= index < INDEX_SIGN {
        f
    } else {
        negated_bits(f)
    }
}

/// The complexity index of a choice under constraints of its kind.
pub open spec fn choice_index_of(c: ChoiceModel, k: Constraints) -> int {
    match (k, c) {
        (
            Constraints::Integer { min_value, max_value, shrink_towards },
            ChoiceModel::Integer(n),
        ) => int_index_of(n, bound(min_value), bound(max_value), shrink_towards@),
        (Constraints::Boolean { p }, ChoiceModel::Boolean(b)) => if both_likely(p) && b {
            1
        } else {
            0
        },
        (Constraints::Float(_), ChoiceModel::Float(f)) => float_index_of(f),
        (Constraints::Text { intervals, min_size, .. }, ChoiceModel::Text(t)) => {
            collection_index_of(
                text_orders(t, intervals),
                min_size as nat,
                total(intervals.intervals@) as nat,
            )
        },
        (Constraints::Bytes { min_size, .. }, ChoiceModel::Bytes(b)) => collection_index_of(
            byte_orders(b),
            min_size as nat,
            256,
        ),
        _ => 0,
    }
}

/// The first character that the alphabet does not hold, if there is one.
pub open spec fn first_outside(t: Seq<u32>, set: IntervalSet) -> Option<u32>
    decreases t.len(),
{
    if t.len() == 0 {
        None
    } else if first_outside(t.drop_last(), set) is Some {
        first_outside(t.drop_last(), set)
    } else if ordinal(set.intervals@, t.last() as int) is None {
        Some(t.last())
    } else {
        None
    }
}

impl Clone for Choice {
    fn clone(&self) -> (r: Choice)
        ensures
            r@ == self@,
    {
        match self {
            Choice::Integer(n) => Choice::Integer(n.clone()),
            Choice::Boolean(b) => Choice::Boolean(*b),
            Choice::Float(f) => Choice::Float(*f),
            Choice::Text(t) => Choice::Text(copy_text(t)),
            Choice::Bytes(b) => Choice::Bytes(copy_bytes(b)),
        }
    }
}

pub fn copy_text(t: &Vec<u32>) -> (r: Vec<u32>)
    ensures
        r@ == t@,
{
    let r = t.clone();
    proof {
        assert(r@ =~= t@);
    }
    r
}

pub fn copy_bytes(b: &Vec<u8>) -> (r: Vec<u8>)
    ensures
        r@ == b@,
{
    let r = b.clone();
    proof {
        assert(r@ =~= b@);
    }
    r
}

/// Whether two choices are the same: of one kind, and equal in it, floats by their
/// bits.
pub fn choice_equal(a: &Choice, b: &Choice) -> (r: bool)
    ensures
        r == (a@ == b@),
{
    match (a, b) {
        (Choice::Integer(x), Choice::Integer(y)) => x.same(y),
        (Choice::Boolean(x), Choice::Boolean(y)) => *x == *y,
        (Choice::Float(x), Choice::Float(y)) => *x == *y,
        (Choice::Text(x), Choice::Text(y)) => same_text(x, y),
        (Choice::Bytes(x), Choice::Bytes(y)) => same_bytes(x, y),
        _ => false,
    }
}

pub fn same_text(x: &Vec<u32>, y: &Vec<u32>) -> (r: bool)
    ensures
        r == (x@ == y@),
{
    if x.len() != y.len() {
        return false;
    }
    let mut i: usize = 0;
    while i < x.len()
        invariant
            i <= x.len(),
            x.len() == y.len(),
            forall|k: int| 0 <= k < i ==> x@[k] == y@[k],
        decreases x.len() - i,
    {
        if x[i] != y[i] {
            return false;
        }
        i = i + 1;
    }
    proof {
        assert(x@ =~= y@);
    }
    true
}

pub fn same_bytes(x: &Vec<u8>, y: &Vec<u8>) -> (r: bool)
    ensures
        r == (x@ == y@),
{
    if x.len() != y.len() {
        return false;
    }
    let mut i: usize = 0;
    while i < x.len()
        invariant
            i <= x.len(),
            x.len() == y.len(),
            forall|k: int| 0 <= k < i ==> x@[k] == y@[k],
        decreases x.len() - i,
    {
        if x[i] != y[i] {
            return false;
        }
        i = i + 1;
    }
    proof {
        assert(x@ =~= y@);
    }
    true
}

/// Whether two sequences of choices are the same.
pub fn choices_equal(a: &Vec<Choice>, b: &Vec<Choice>) -> (r: bool)
    ensures
        r == (models(a@) == models(b@)),
{
    if a.len() != b.len() {
        proof {
            assert(models(a@).len() != models(b@).len());
        }
        return false;
    }
    let mut i: usize = 0;
    while i < a.len()
        invariant
            i <= a.len(),
            a.len() == b.len(),
            forall|k: int| 0 <= k < i ==> a@[k]@ == b@[k]@,
        decreases a.len() - i,
    {
        if !choice_equal(&a[i], &b[i]) {
            proof {
                assert(models(a@)[i as int] != models(b@)[i as int]);
            }
            return false;
        }
        i = i + 1;
    }
    proof {
        assert(models(a@) =~= models(b@));
    }
    true
}

/// A copy of a sequence of choices.
pub fn copy_choices(a: &Vec<Choice>) -> (r: Vec<Choice>)
    ensures
        models(r@) == models(a@),
{
    let mut r: Vec<Choice> = Vec::new();
    let mut i: usize = 0;
    while i < a.len()
        invariant
            i <= a.len(),
            r.len() == i,
            forall|k: int| 0 <= k < i ==> (#[trigger] r@[k])@ == a@[k]@,
        decreases a.len() - i,
    {
        r.push(a[i].clone());
        i = i + 1;
    }
    proof {
        assert(models(r@) =~= models(a@));
    }
    r
}

// ---- choices and their index ------------------------------------------------

fn orders_of_text(t: &Vec<u32>, set: &IntervalSet) -> (r: Result<Vec<Int>, ChoiceError>)
    requires
        set.wf(),
    ensures
        r is Ok <==> first_outside(t@, *set) is None,
        r is Ok ==> values(r->Ok_0@) == text_orders(t@, *set),
        r is Err ==> r->Err_0 == ChoiceError::Interval(
            IntervalError::NotInList { value: first_outside(t@, *set)->0 as i64 },
        ),
{
    let mut orders: Vec<Int> = Vec::new();
    let mut i: usize = 0;
    proof {
        assert(t@.take(0) =~= Seq::<u32>::empty());
        assert(values(orders@) =~= text_orders(t@.take(0), *set));
    }
    while i < t.len()
        invariant
            i <= t.len(),
            set.wf(),
            first_outside(t@.take(i as int), *set) is None,
            values(orders@) == text_orders(t@.take(i as int), *set),
        decreases t.len() - i,
    {
        let ghost before = orders@;
        proof {
            let front = t@.take(i + 1);
            assert(front.drop_last() =~= t@.take(i as int));
            assert(front.last() == t@[i as int]);
        }
        match set.shrink_order_index_of_cp(t[i] as i64) {
            Ok(n) => {
                orders.push(Int::of(n));
                proof {
                    assert(values(orders@) =~= text_orders(t@.take(i + 1), *set)) by {
                        let a = values(orders@);
                        let b = text_orders(t@.take(i + 1), *set);
                        assert(a.len() == b.len()) by {
                            assert(values(before).len() == i);
                        }
                        assert forall|k: int| 0 <= k < a.len() implies a[k] == b[k] by {
                            if k < i {
                                assert(values(before)[k] == text_orders(
                                    t@.take(i as int),
                                    *set,
                                )[k]);
                            }
                        }
                    }
                }
            },
            Err(e) => {
                proof {
                    lemma_first_outside_stays(t@, (i + 1) as int, *set);
                }
                return Err(ChoiceError::Interval(e));
            },
        }
        i = i + 1;
    }
    proof {
        assert(t@.take(i as int) =~= t@);
    }
    Ok(orders)
}

proof fn lemma_first_outside_stays(t: Seq<u32>, n: int, set: IntervalSet)
    requires
        0 <= n <= t.len(),
        first_outside(t.take(n), set) is Some,
    ensures
        first_outside(t, set) == first_outside(t.take(n), set),
    decreases t.len(),
{
    if n < t.len() {
        assert(t.drop_last().take(n) =~= t.take(n));
        lemma_first_outside_stays(t.drop_last(), n, set);
    } else {
        assert(t.take(n) =~= t);
    }
}

fn orders_of_bytes(b: &Vec<u8>) -> (r: Vec<Int>)
    ensures
        values(r@) == byte_orders(b@),
{
    let mut orders: Vec<Int> = Vec::new();
    let mut i: usize = 0;
    while i < b.len()
        invariant
            i <= b.len(),
            orders.len() == i,
            forall|k: int| 0 <= k < i ==> (#[trigger] orders@[k])@ == b@[k],
        decreases b.len() - i,
    {
        orders.push(Int::of(b[i] as i64));
        i = i + 1;
    }
    proof {
        assert(values(orders@) =~= byte_orders(b@));
    }
    orders
}

fn index_sign() -> (r: Int)
    ensures
        r@ == INDEX_SIGN,
{
    Int::of_unsigned(u64::MAX).plus(&Int::of(1))
}

/// The complexity index of a choice.
pub fn choice_to_index(choice: &Choice, constraints: &Constraints) -> (r: Result<Int, ChoiceError>)
    requires
        constraints.wf(),
        choice is Text ==> choice->Text_0.len() <= u32::MAX,
        choice is Bytes ==> choice->Bytes_0.len() <= u32::MAX,
    ensures
        r is Ok ==> r->Ok_0@ == choice_index_of(choice@, *constraints),
        !constraints.fits_kind(choice@) <==> r == Err::<Int, ChoiceError>(ChoiceError::WrongKind),
        constraints.fits_kind(choice@) && !(choice is Text) ==> r is Ok,
        choice is Text && constraints is Text ==> {
            let outside = first_outside(choice->Text_0@, constraints->Text_intervals);
            &&& r is Ok <==> outside is None
            &&& r is Err ==> r->Err_0 == ChoiceError::Interval(
                IntervalError::NotInList { value: outside->0 as i64 },
            )
        },
{
    match (choice, constraints) {
        (Choice::Boolean(b), Constraints::Boolean { p }) => {
            if lt(TINY, *p) && lt(*p, ONE) && *b {
                Ok(Int::of(1))
            } else {
                Ok(Int::of(0))
            }
        },
        (
            Choice::Integer(n),
            Constraints::Integer { min_value, max_value, shrink_towards },
        ) => Ok(int_to_index(n, min_value, max_value, shrink_towards)),
        (Choice::Bytes(b), Constraints::Bytes { min_size, .. }) => {
            let orders = orders_of_bytes(b);
            proof {
                assert(values(orders@).len() == orders@.len());
            }
            Ok(collection_index_from_orders(&orders, *min_size, 256))
        },
        (Choice::Text(t), Constraints::Text { intervals, min_size, .. }) => {
            let alphabet: u64 = intervals.alphabet_len() as u64;
            match orders_of_text(t, intervals) {
                Ok(orders) => {
                    proof {
                        assert(values(orders@).len() == orders@.len());
                    }
                    Ok(collection_index_from_orders(&orders, *min_size, alphabet))
                },
                Err(e) => Err(e),
            }
        },
        (Choice::Float(f), Constraints::Float(_)) => {
            let lex: u64 = float_to_lex(abs_bits(*f));
            if *f >= SIGN {
                Ok(index_sign().plus(&Int::of_unsigned(lex)))
            } else {
                Ok(Int::of_unsigned(lex))
            }
        },
        _ => Err(ChoiceError::WrongKind),
    }
}

/// The float that an index stands for, before it is pushed into its bounds.
pub fn float_from_index(index: &Int) -> (r: u64)
    ensures
        r == float_at_index(index@),
{
    let weight = index_sign();
    let low = index.mod_floor(&weight);
    let f: u64 = match low.to_u64() {
        Some(n) => lex_to_float(n),
        None => 0,
    };
    if index.div_floor(&weight).is_zero() {
        f
    } else {
        negate(f)
    }
}

fn text_of_orders(orders: &Vec<Int>, set: &IntervalSet) -> (r: Vec<u32>)
    requires
        set.wf(),
        set.normal(),
        letters_valid(values(orders@), total(set.intervals@)),
        forall|x: int| #[trigger] set.has(x) ==> 0 <= x < CODEPOINT_LIMIT,
    ensures
        text_orders(r@, *set) == values(orders@),
        forall|i: int| 0 <= i < r@.len() ==> set.has(#[trigger] r@[i] as int),
{
    let mut out: Vec<u32> = Vec::new();
    let mut i: usize = 0;
    while i < orders.len()
        invariant
            i <= orders.len(),
            out.len() == i,
            set.wf(),
            set.normal(),
            letters_valid(values(orders@), total(set.intervals@)),
            forall|x: int| #[trigger] set.has(x) ==> 0 <= x < CODEPOINT_LIMIT,
            forall|k: int| 0 <= k < i ==> set.has(#[trigger] out@[k] as int),
            forall|k: int|
                0 <= k < i ==> text_orders(out@, *set)[k] == #[trigger] values(orders@)[k],
        decreases orders.len() - i,
    {
        let ghost before = out@;
        proof {
            let n = values(orders@)[i as int];
            assert(0 <= n < total(set.intervals@));
            shrink_order_marks_are_ordered(*set);
            shrink_order_is_a_bijection(
                n,
                set.idx_of_zero as int,
                set.idx_of_z as int,
                set.size as int,
            );
            let at = from_shrink_order(n, set.idx_of_zero as int, set.idx_of_z as int);
            position_survives_its_member(set.intervals@, at);
            assert(set.has(nth(set.intervals@, at)));
        }
        let n: i64 = match orders[i].to_i64() {
            Some(n) => n,
            None => 0,
        };
        let cp: i64 = match set.cp_in_shrink_order(n) {
            Ok(cp) => cp,
            Err(_) => 0,
        };
        out.push(cp as u32);
        proof {
            assert forall|k: int| 0 <= k < i + 1 implies text_orders(out@, *set)[k]
                == #[trigger] values(orders@)[k] by {
                if k < i {
                    assert(text_orders(before, *set)[k] == values(orders@)[k]);
                    assert(out@[k] == before[k]);
                }
            }
            assert forall|k: int| 0 <= k < i + 1 implies set.has(#[trigger] out@[k] as int) by {
                if k < i {
                    assert(out@[k] == before[k]);
                }
            }
        }
        i = i + 1;
    }
    proof {
        assert(text_orders(out@, *set) =~= values(orders@));
    }
    out
}

fn bytes_of_orders(orders: &Vec<Int>) -> (r: Vec<u8>)
    requires
        letters_valid(values(orders@), 256),
    ensures
        byte_orders(r@) == values(orders@),
{
    let mut out: Vec<u8> = Vec::new();
    let mut i: usize = 0;
    while i < orders.len()
        invariant
            i <= orders.len(),
            out.len() == i,
            letters_valid(values(orders@), 256),
            forall|k: int| 0 <= k < i ==> out@[k] == #[trigger] values(orders@)[k],
        decreases orders.len() - i,
    {
        proof {
            assert(0 <= values(orders@)[i as int] < 256);
        }
        let n: u8 = match orders[i].to_u64() {
            Some(n) => n as u8,
            None => 0,
        };
        out.push(n);
        i = i + 1;
    }
    proof {
        assert(byte_orders(out@) =~= values(orders@));
    }
    out
}

/// The alphabet holds codepoints only.
pub open spec fn holds_codepoints(set: IntervalSet) -> bool {
    forall|x: int| #[trigger] set.has(x) ==> 0 <= x < CODEPOINT_LIMIT
}

/// Where a sequence's index counts from when the shortest sequences, too, are
/// counted.
pub open spec fn collection_position(index: int, min_size: u64, alphabet: nat) -> int {
    index + shorter_count(min_size as nat, alphabet)
}

/// `r` is what stands at an index: the one choice with that index, or the
/// statement that it would be too long. Indices below that of the shortest
/// sequence lead to shorter ones, and to the empty one in the end.
pub open spec fn choice_at(
    index: int,
    k: Constraints,
    mixed: u64,
    r: Result<ChoiceModel, ChoiceError>,
) -> bool {
    &&& r is Ok ==> k.fits_kind(r->Ok_0)
    &&& r is Err ==> r->Err_0 == ChoiceError::TooLarge
    &&& match k {
        Constraints::Integer { min_value, max_value, shrink_towards } => r is Ok && r->Ok_0
            == ChoiceModel::Integer(
            int_at_index(index, bound(min_value), bound(max_value), shrink_towards@),
        ),
        Constraints::Boolean { p } => r is Ok && r->Ok_0 == ChoiceModel::Boolean(
            if float_le(p, TINY) {
                false
            } else if float_le(ONE, p) {
                true
            } else {
                index != 0
            },
        ),
        Constraints::Float(bounds) => r is Ok && r->Ok_0 == ChoiceModel::Float(
            float_clamped(float_at_index(index), mixed, bounds),
        ),
        Constraints::Text { intervals, min_size, .. } => {
            let letters = total(intervals.intervals@) as nat;
            let position = collection_position(index, min_size, letters);
            &&& r is Err <==> collection_too_large(position, letters)
            &&& r is Ok ==> forall|i: int|
                0 <= i < r->Ok_0->Text_0.len() ==> intervals.has(
                    #[trigger] r->Ok_0->Text_0[i] as int,
                )
            &&& r is Ok && letters > 0 && position >= 0 ==> choice_index_of(r->Ok_0, k) == index
            &&& r is Ok && (letters == 0 || position < 0) ==> r->Ok_0->Text_0.len() == 0
        },
        Constraints::Bytes { min_size, .. } => {
            let position = collection_position(index, min_size, 256);
            &&& r is Err <==> collection_too_large(position, 256)
            &&& r is Ok && position >= 0 ==> choice_index_of(r->Ok_0, k) == index
            &&& r is Ok && position < 0 ==> r->Ok_0->Bytes_0.len() == 0
        },
    }
}

/// The choice at an index. `mixed` is used for a float out of its bounds: the point
/// between the bounds that the mantissa of `float_from_index` picks.
pub fn choice_from_index(index: &Int, constraints: &Constraints, mixed: u64) -> (r: Result<
    Choice,
    ChoiceError,
>)
    requires
        constraints.wf(),
        constraints is Text ==> holds_codepoints(constraints->Text_intervals),
    ensures
        match r {
            Ok(c) => choice_at(index@, *constraints, mixed, Ok(c@)),
            Err(e) => choice_at(index@, *constraints, mixed, Err(e)),
        },
{
    match constraints {
        Constraints::Integer { min_value, max_value, shrink_towards } => Ok(
            Choice::Integer(int_from_index(index, min_value, max_value, shrink_towards)),
        ),
        Constraints::Boolean { p } => {
            let b = if le(*p, TINY) {
                false
            } else if le(ONE, *p) {
                true
            } else {
                !index.is_zero()
            };
            Ok(Choice::Boolean(b))
        },
        Constraints::Float(bounds) => Ok(
            Choice::Float(float_clamp(float_from_index(index), mixed, bounds)),
        ),
        Constraints::Text { intervals, min_size, .. } => {
            let alphabet: u64 = intervals.alphabet_len() as u64;
            match collection_value_to_orders(index, *min_size, alphabet) {
                Ok(orders) => {
                    proof {
                        assert(values(orders@).len() == orders@.len());
                    }
                    let t = text_of_orders(&orders, intervals);
                    proof {
                        assert(text_orders(t@, *intervals).len() == t@.len());
                    }
                    Ok(Choice::Text(t))
                },
                Err(_) => Err(ChoiceError::TooLarge),
            }
        },
        Constraints::Bytes { min_size, .. } => {
            match collection_value_to_orders(index, *min_size, 256) {
                Ok(orders) => {
                    let b = bytes_of_orders(&orders);
                    proof {
                        assert(values(orders@).len() == orders@.len());
                        assert(byte_orders(b@).len() == b@.len());
                    }
                    Ok(Choice::Bytes(b))
                },
                Err(_) => Err(ChoiceError::TooLarge),
            }
        },
    }
}

/// Whether every character is in the alphabet.
fn all_members(t: &Vec<u32>, set: &IntervalSet) -> (r: bool)
    ensures
        r == (forall|i: int| 0 <= i < t@.len() ==> set.has(#[trigger] t@[i] as int)),
{
    let mut i: usize = 0;
    while i < t.len()
        invariant
            i <= t.len(),
            forall|k: int| 0 <= k < i ==> set.has(#[trigger] t@[k] as int),
        decreases t.len() - i,
    {
        if !set.contains_cp(t[i] as i64) {
            proof {
                assert(!set.has(t@[i as int] as int));
            }
            return false;
        }
        i = i + 1;
    }
    true
}

/// Whether a choice keeps its constraints.
pub fn choice_permitted(choice: &Choice, constraints: &Constraints) -> (r: Result<
    bool,
    ChoiceError,
>)
    ensures
        r is Ok <==> constraints.fits_kind(choice@),
        r is Ok ==> r->Ok_0 == constraints.permits(choice@),
        r is Err ==> r->Err_0 == ChoiceError::WrongKind,
{
    match (choice, constraints) {
        (Choice::Boolean(b), Constraints::Boolean { p }) => {
            if le(*p, 0) {
                Ok(!*b)
            } else if le(ONE, *p) {
                Ok(*b)
            } else {
                Ok(true)
            }
        },
        (Choice::Integer(n), Constraints::Integer { min_value, max_value, .. }) => {
            if let Some(mn) = min_value {
                if n.less(mn) {
                    return Ok(false);
                }
            }
            if let Some(mx) = max_value {
                if mx.less(n) {
                    return Ok(false);
                }
            }
            Ok(true)
        },
        (Choice::Float(f), Constraints::Float(bounds)) => Ok(permitted_float(*f, bounds)),
        (Choice::Text(t), Constraints::Text { intervals, min_size, max_size }) => {
            let len: u64 = t.len() as u64;
            if len < *min_size || len > *max_size {
                return Ok(false);
            }
            Ok(all_members(t, intervals))
        },
        (Choice::Bytes(b), Constraints::Bytes { min_size, max_size }) => {
            let len: u64 = b.len() as u64;
            Ok(*min_size <= len && len <= *max_size)
        },
        _ => Err(ChoiceError::WrongKind),
    }
}

// ---- laws -------------------------------------------------------------------

/// A choice that the index can tell apart: a boolean that is all but excluded by
/// its probability shares its index with the other one.
pub open spec fn distinguishable(c: ChoiceModel, k: Constraints) -> bool {
    match (k, c) {
        (Constraints::Boolean { p }, ChoiceModel::Boolean(b)) => b ==> both_likely(p) || float_le(
            ONE,
            p,
        ),
        (_, ChoiceModel::Text(t)) => t.len() < BUFFER_SIZE,
        (_, ChoiceModel::Bytes(b)) => b.len() < BUFFER_SIZE,
        _ => true,
    }
}

proof fn lemma_text_orders_valid(t: Seq<u32>, set: IntervalSet)
    requires
        set.wf(),
        set.normal(),
        forall|i: int| 0 <= i < t.len() ==> set.has(#[trigger] t[i] as int),
    ensures
        letters_valid(text_orders(t, set), total(set.intervals@)),
{
    let s = set.intervals@;
    let orders = text_orders(t, set);
    assert forall|i: int| 0 <= i < orders.len() implies 0 <= #[trigger] orders[i] < total(s) by {
        assert(set.has(t[i] as int));
        member_survives_its_position(s, t[i] as int);
        shrink_order_marks_are_ordered(set);
        shrink_order_is_a_bijection(
            ordinal(s, t[i] as int)->0,
            set.idx_of_zero as int,
            set.idx_of_z as int,
            set.size as int,
        );
    }
}

proof fn lemma_text_orders_injective(t: Seq<u32>, u: Seq<u32>, set: IntervalSet)
    requires
        set.wf(),
        set.normal(),
        forall|i: int| 0 <= i < t.len() ==> set.has(#[trigger] t[i] as int),
        forall|i: int| 0 <= i < u.len() ==> set.has(#[trigger] u[i] as int),
        text_orders(t, set) == text_orders(u, set),
    ensures
        t == u,
{
    let s = set.intervals@;
    assert(text_orders(t, set).len() == t.len());
    assert(text_orders(u, set).len() == u.len());
    assert forall|i: int| 0 <= i < t.len() implies t[i] == u[i] by {
        assert(text_orders(t, set)[i] == text_orders(u, set)[i]);
        assert(set.has(t[i] as int));
        assert(set.has(u[i] as int));
        member_survives_its_position(s, t[i] as int);
        member_survives_its_position(s, u[i] as int);
        shrink_order_marks_are_ordered(set);
        let zero = set.idx_of_zero as int;
        let z = set.idx_of_z as int;
        let a = ordinal(s, t[i] as int)->0;
        let b = ordinal(s, u[i] as int)->0;
        shrink_order_is_a_bijection(a, zero, z, set.size as int);
        shrink_order_is_a_bijection(b, zero, z, set.size as int);
        assert(text_orders(t, set)[i] == to_shrink_order(a, zero, z));
        assert(text_orders(u, set)[i] == to_shrink_order(b, zero, z));
        assert(a == b);
    }
    assert(t =~= u);
}

proof fn lemma_byte_orders(b: Seq<u8>, c: Seq<u8>)
    ensures
        letters_valid(byte_orders(b), 256),
        byte_orders(b) == byte_orders(c) ==> b == c,
{
    if byte_orders(b) == byte_orders(c) {
        assert(byte_orders(b).len() == b.len());
        assert(byte_orders(c).len() == c.len());
        assert forall|i: int| 0 <= i < b.len() implies b[i] == c[i] by {
            assert(byte_orders(b)[i] == byte_orders(c)[i]);
        }
        assert(b =~= c);
    }
}

/// A permitted choice is what stands at its index: going to the index and back
/// changes nothing. Sequences have to be short enough to be built at all, and a
/// boolean must not be all but excluded.
pub proof fn choice_survives_its_index(
    c: ChoiceModel,
    k: Constraints,
    mixed: u64,
    r: Result<ChoiceModel, ChoiceError>,
)
    requires
        k.wf(),
        k.permits(c),
        distinguishable(c, k),
        choice_at(choice_index_of(c, k), k, mixed, r),
    ensures
        r == Ok::<ChoiceModel, ChoiceError>(c),
{
    let index = choice_index_of(c, k);
    match (k, c) {
        (
            Constraints::Integer { min_value, max_value, shrink_towards },
            ChoiceModel::Integer(n),
        ) => {
            int_value_survives_its_index(n, bound(min_value), bound(max_value), shrink_towards@);
        },
        (Constraints::Float(bounds), ChoiceModel::Float(f)) => {
            let m = magnitude_bits(f);
            float_survives_its_encoding(m);
            if f >= SIGN {
                assert(index % INDEX_SIGN as int == lex_of(m));
            } else {
                assert(index % INDEX_SIGN as int == lex_of(m));
            }
            assert(float_at_index(index) == f);
        },
        (Constraints::Text { intervals, min_size, .. }, ChoiceModel::Text(t)) => {
            let letters = total(intervals.intervals@) as nat;
            lemma_text_orders_valid(t, intervals);
            let orders = text_orders(t, intervals);
            assert(orders.len() == t.len());
            if letters == 0 {
                if t.len() > 0 {
                    assert(0 <= orders[0] < letters);
                }
                assert(r->Ok_0->Text_0 =~= t);
            } else {
                lemma_position_within_buffer(orders, min_size as nat, letters);
                let u = r->Ok_0->Text_0;
                lemma_text_orders_valid(u, intervals);
                collection_index_identifies_the_sequence(
                    orders,
                    text_orders(u, intervals),
                    min_size as nat,
                    letters,
                );
                lemma_text_orders_injective(t, u, intervals);
            }
        },
        (Constraints::Bytes { min_size, .. }, ChoiceModel::Bytes(b)) => {
            let orders = byte_orders(b);
            assert(orders.len() == b.len());
            let u = r->Ok_0->Bytes_0;
            lemma_byte_orders(b, u);
            lemma_byte_orders(u, b);
            lemma_position_within_buffer(orders, min_size as nat, 256);
            collection_index_identifies_the_sequence(
                orders,
                byte_orders(u),
                min_size as nat,
                256,
            );
        },
        _ => {},
    }
}

proof fn lemma_position_within_buffer(orders: Seq<int>, min_size: nat, alphabet: nat)
    requires
        letters_valid(orders, alphabet as int),
        orders.len() < BUFFER_SIZE,
        alphabet > 0,
    ensures
        0 <= collection_index_of(orders, min_size, alphabet) + shorter_count(min_size, alphabet)
            < shorter_count(BUFFER_SIZE as nat, alphabet),
{
    position_is_within_its_length(orders, alphabet);
    shorter_count_grows((orders.len() + 1) as nat, BUFFER_SIZE as nat, alphabet);
    shorter_count_grows(0, orders.len(), alphabet);
}

} // verus!
