//! Which sequences of choices, and which characters, come before others, and how choices are
//! laid out as bytes.
use crate::choice::ChoiceModel;
use crate::codec::{be_bytes, bits_of, encoded, payload_of, uleb128, utf8_codepoint};
use crate::engine::{first_difference_less, sequence_less, text_less};
use crate::intervalset::{
    index_above_counts_smaller_members, index_above_of, member_survives_its_position,
    members_ascend, ordinal, to_shrink_order, IntervalSet,
};
use vstd::prelude::*;

verus! {

/// A shorter sequence is simpler than a longer one, whatever they hold.
pub proof fn shorter_sequences_are_simpler(a: Seq<ChoiceModel>, b: Seq<ChoiceModel>)
    requires
        a.len() < b.len(),
    ensures
        sequence_less(a, b) == Some(true),
        sequence_less(b, a) == Some(false),
{
}

/// A string comes before another one where it is the beginning of it, or has the smaller
/// codepoint at the first place where they differ.
pub open spec fn string_before(x: Seq<u32>, y: Seq<u32>) -> bool {
    exists|k: int|
        {
            &&& 0 <= k <= x.len() && k < y.len()
            &&& #[trigger] x.take(k) == y.take(k)
            &&& k == x.len() || x[k] < y[k]
        }
}

proof fn lemma_text_less(x: Seq<u32>, y: Seq<u32>)
    ensures
        string_before(x, y) ==> text_less(x, y),
    decreases x.len(),
{
    if string_before(x, y) {
        let k = choose|k: int|
            {
                &&& 0 <= k <= x.len() && k < y.len()
                &&& #[trigger] x.take(k) == y.take(k)
                &&& k == x.len() || x[k] < y[k]
            };
        if k > 0 {
            assert(x.take(k)[0] == y.take(k)[0]);
            let (p, q) = (x.drop_first(), y.drop_first());
            assert(p.take(k - 1) =~= x.take(k).drop_first());
            assert(q.take(k - 1) =~= y.take(k).drop_first());
            assert(p.take(k - 1) == q.take(k - 1));
            lemma_text_less(p, q);
        }
    }
}

/// Of two sequences of one length the first difference decides: the smaller integer, the false
/// truth value, or the string that comes before the other makes the simpler one.
pub proof fn the_first_difference_decides(a: Seq<ChoiceModel>, b: Seq<ChoiceModel>, k: int)
    requires
        a.len() == b.len(),
        0 <= k < a.len(),
        a.take(k) == b.take(k),
        match (a[k], b[k]) {
            (ChoiceModel::Integer(x), ChoiceModel::Integer(y)) => x < y,
            (ChoiceModel::Boolean(x), ChoiceModel::Boolean(y)) => !x && y,
            (ChoiceModel::Float(x), ChoiceModel::Float(y)) => x < y,
            (ChoiceModel::Text(x), ChoiceModel::Text(y)) => string_before(x, y),
            _ => false,
        },
    ensures
        sequence_less(a, b) == Some(true),
    decreases k,
{
    if k == 0 {
        if a[0] is Text {
            let (x, y) = (a[0]->Text_0, b[0]->Text_0);
            lemma_text_less(x, y);
            if x == y {
                lemma_not_before_itself(x);
            }
        }
        assert(a[0] != b[0]);
        assert(first_difference_less(a, b) == crate::engine::choice_less(a[0], b[0]));
    } else {
        assert(a[0] == a.take(k)[0] && b[0] == b.take(k)[0]);
        let (p, q) = (a.drop_first(), b.drop_first());
        assert(p.take(k - 1) =~= a.take(k).drop_first());
        assert(q.take(k - 1) =~= b.take(k).drop_first());
        the_first_difference_decides(p, q, k - 1);
        assert(first_difference_less(a, b) == first_difference_less(p, q));
    }
}

proof fn lemma_not_before_itself(x: Seq<u32>)
    ensures
        !string_before(x, x),
{
}

/// The rank of a character in shrink order: the digits and what follows up to the capital Z come
/// first, in their order; then what comes before the digits, backwards; then all others.
pub open spec fn shrink_rank(x: int) -> (int, int) {
    if 48 <= x <= 90 {
        (0, x)
    } else if x < 48 {
        (1, -x)
    } else {
        (2, x)
    }
}

/// Characters are ranked from the digit zero on, where the alphabet holds it and the capital Z.
pub proof fn characters_are_ranked(set: IntervalSet, x: int, y: int)
    requires
        set.wf(),
        set.normal(),
        set.has(48),
        set.has(90),
        set.has(x),
        set.has(y),
        shrink_rank(x).0 < shrink_rank(y).0 || (shrink_rank(x).0 == shrink_rank(y).0 && shrink_rank(
            x,
        ).1 < shrink_rank(y).1),
    ensures
        to_shrink_order(
            ordinal(set.intervals@, x)->0,
            set.idx_of_zero as int,
            set.idx_of_z as int,
        ) < to_shrink_order(
            ordinal(set.intervals@, y)->0,
            set.idx_of_zero as int,
            set.idx_of_z as int,
        ),
{
    let s = set.intervals@;
    crate::intervalset::zero_is_simplest(set);
    crate::intervalset::shrink_order_marks_are_ordered(set);
    lemma_mark(set, 48);
    lemma_mark(set, 90);
    member_survives_its_position(s, x);
    member_survives_its_position(s, y);
    member_survives_its_position(s, 48);
    member_survives_its_position(s, 90);
    lemma_ordinals_ascend(set, x, y);
    lemma_ordinals_ascend(set, x, 48);
    lemma_ordinals_ascend(set, x, 90);
    lemma_ordinals_ascend(set, y, 48);
    lemma_ordinals_ascend(set, y, 90);
}

proof fn lemma_ordinals_ascend(set: IntervalSet, x: int, y: int)
    requires
        set.wf(),
        set.normal(),
        set.has(x),
        set.has(y),
    ensures
        x < y <==> ordinal(set.intervals@, x)->0 < ordinal(set.intervals@, y)->0,
{
    let s = set.intervals@;
    member_survives_its_position(s, x);
    member_survives_its_position(s, y);
    let (i, j) = (ordinal(s, x)->0, ordinal(s, y)->0);
    if i < j {
        members_ascend(s, i, j);
    }
    if j < i {
        members_ascend(s, j, i);
    }
}

proof fn lemma_mark(set: IntervalSet, c: int)
    requires
        set.wf(),
        set.normal(),
        set.has(c),
    ensures
        index_above_of(set.intervals@, c) == ordinal(set.intervals@, c)->0,
{
    let s = set.intervals@;
    member_survives_its_position(s, c);
    let at = ordinal(s, c)->0;
    index_above_counts_smaller_members(s, c, at);
    let above = index_above_of(s, c);
    if above < at {
        index_above_counts_smaller_members(s, c, above);
        members_ascend(s, above, at);
    }
}

/// A truth value is one byte. Anything else begins with its kind, in the upper three bits of the
/// first byte, and the length of the rest below; a length of 31 or more follows in groups of
/// seven bits. The rest is a float in eight bytes, the most significant first, an integer, the
/// bytes themselves, or a string, in which a character of ASCII is one byte.
pub proof fn choices_are_laid_out(c: ChoiceModel)
    ensures
        c is Boolean ==> encoded(c) == seq![
            if c->Boolean_0 {
                1u8
            } else {
                0u8
            },
        ],
        !(c is Boolean) ==> {
            let kind: int = match c {
                ChoiceModel::Float(_) => 1,
                ChoiceModel::Integer(_) => 2,
                ChoiceModel::Bytes(_) => 3,
                _ => 4,
            };
            let rest = payload_of(c);
            encoded(c) == (if rest.len() < 31 {
                seq![(32 * kind + rest.len()) as u8]
            } else {
                seq![(32 * kind + 31) as u8] + uleb128(rest.len())
            }) + rest
        },
        c is Bytes ==> payload_of(c) == c->Bytes_0,
        c is Float ==> payload_of(c).len() == 8 && payload_of(c)[7] == c->Float_0 % 256,
        c is Integer ==> payload_of(c).len() == 1 + bits_of(c->Integer_0) / 8
            && payload_of(c).last() == c->Integer_0 % 256,
        c is Text && c->Text_0.len() == 1 && c->Text_0[0] < 128 ==> payload_of(c)
            == seq![c->Text_0[0] as u8],
{
    match c {
        ChoiceModel::Float(f) => {
            lemma_be_bytes(f as int, 8);
        },
        ChoiceModel::Integer(n) => {
            lemma_be_bytes(n, 1 + bits_of(n) / 8);
        },
        ChoiceModel::Text(t) => {
            if t.len() == 1 {
                reveal_with_fuel(crate::codec::utf8, 2);
                assert(payload_of(c) =~= utf8_codepoint(t[0]));
            }
        },
        _ => {},
    }
}

proof fn lemma_be_bytes(n: int, len: nat)
    requires
        len > 0,
    ensures
        be_bytes(n, len).len() == len,
        be_bytes(n, len).last() == n % 256,
    decreases len,
{
    if len > 1 {
        lemma_be_bytes(n / 256, (len - 1) as nat);
    } else {
        assert(be_bytes(n / 256, 0).len() == 0);
    }
}

} // verus!
