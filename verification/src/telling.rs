//! How strategies are shown, and what is read off types.
use crate::integer::decimal;
use crate::nodes::Names;
use crate::repr::{atom_repr, atoms_repr, named_repr, node_repr, nodes_repr};
use crate::strategy::{Atom, NamedNode, StrategyNode};
use crate::types::{
    admits, hashable, init_names, mentions_forward, one_of_plan, registry_gives, Kept,
    Origin, Outcome, Plan, TypeForm, Types,
};
use vstd::prelude::*;

verus! {

// ---- how strategies are shown -----------------------------------------------

/// Plain values are shown as they are written.
pub proof fn values_are_shown_as_written(a: Atom, names: Names)
    ensures
        match a {
            Atom::Nil => atom_repr(a, names) == "None"@,
            Atom::Bool(b) => atom_repr(a, names) == (if b {
                "True"@
            } else {
                "False"@
            }),
            Atom::Int(n) => atom_repr(a, names) == decimal(n as int),
            Atom::Float(f) => (f == 0x7FF0_0000_0000_0000 ==> atom_repr(a, names) == "inf"@) && (f
                == 0xFFF0_0000_0000_0000 ==> atom_repr(a, names) == "-inf"@) && (f
                == 0x7FF8_0000_0000_0000 ==> atom_repr(a, names) == "nan"@),
            Atom::Host(id) => id < names.objects@.len() ==> atom_repr(a, names)
                == names.objects@[id as int]@,
        },
{
}

/// A strategy is shown as the call that makes it, with its parts as arguments.
pub proof fn strategies_are_shown_as_calls(node: StrategyNode, names: Names)
    ensures
        match node {
            StrategyNode::Booleans => node_repr(node, names) == "booleans()"@,
            StrategyNode::NoneVal => node_repr(node, names) == "none()"@,
            StrategyNode::Nothing => node_repr(node, names) == "nothing()"@,
            StrategyNode::Just(a) => node_repr(node, names) == "just("@ + atom_repr(a, names)
                + ")"@,
            StrategyNode::Floats { .. } => node_repr(node, names) == "floats()"@,
            StrategyNode::Text { .. } => node_repr(node, names) == "text()"@,
            StrategyNode::Characters { repr, .. } => node_repr(node, names) == repr@,
            StrategyNode::Binary { .. } => node_repr(node, names) == "binary()"@,
            StrategyNode::Uuids { .. } => node_repr(node, names) == "uuids()"@,
            StrategyNode::Dates { .. } => node_repr(node, names) == "dates()"@,
            StrategyNode::Times { .. } => node_repr(node, names) == "times()"@,
            StrategyNode::Datetimes { .. } => node_repr(node, names) == "datetimes()"@,
            StrategyNode::Timedeltas { .. } => node_repr(node, names) == "timedeltas()"@,
            StrategyNode::ComplexNumbers { .. } => node_repr(node, names)
                == "complex_numbers()"@,
            StrategyNode::Fractions { .. } => node_repr(node, names) == "fractions()"@,
            StrategyNode::Decimals { .. } => node_repr(node, names) == "decimals()"@,
            StrategyNode::Data => node_repr(node, names) == "data()"@,
            StrategyNode::Randoms { .. } => node_repr(node, names) == "randoms()"@,
            StrategyNode::Integers { min, max } => {
                &&& min is None && max is None ==> node_repr(node, names) == "integers()"@
                &&& min is Some && max is None ==> node_repr(node, names)
                    == "integers(min_value="@ + decimal(min->0@) + ")"@
                &&& min is None && max is Some ==> node_repr(node, names)
                    == "integers(max_value="@ + decimal(max->0@) + ")"@
                &&& min is Some && max is Some ==> node_repr(node, names) == "integers("@
                    + decimal(min->0@) + ", "@ + decimal(max->0@) + ")"@
            },
            StrategyNode::Lists { elem, .. } => node_repr(node, names) == "lists("@ + node_repr(
                *elem,
                names,
            ) + ")"@,
            StrategyNode::Sets { elem, frozen, .. } => {
                &&& frozen ==> node_repr(node, names) == "frozensets("@ + node_repr(*elem, names)
                    + ")"@
                &&& !frozen ==> node_repr(node, names) == "sets("@ + node_repr(*elem, names) + ")"@
            },
            StrategyNode::Dictionaries { keys, values, .. } => node_repr(node, names)
                == "dictionaries(keys="@ + node_repr(*keys, names) + ", values="@ + node_repr(
                *values,
                names,
            ) + ")"@,
            StrategyNode::Mapped { base, func } => func < names.functions@.len() ==> node_repr(
                node,
                names,
            ) == node_repr(*base, names) + ".map("@ + names.functions@[func as int]@ + ")"@,
            StrategyNode::Filtered { base, func } => func < names.functions@.len() ==> node_repr(
                node,
                names,
            ) == node_repr(*base, names) + ".filter("@ + names.functions@[func as int]@ + ")"@,
            StrategyNode::Flatmapped { base, func } => func < names.functions@.len() ==> node_repr(
                node,
                names,
            ) == node_repr(*base, names) + ".flatmap("@ + names.functions@[func as int]@ + ")"@,
            StrategyNode::SampledFromRange { start, stop, step, .. } => step@ == 1 ==> node_repr(
                node,
                names,
            ) == "sampled_from("@ + ("range("@ + decimal(start@) + ", "@ + decimal(stop@) + ")"@)
                + ")"@,
            StrategyNode::Shared { base, shown, .. } => node_repr(node, names) == "shared("@
                + node_repr(*base, names) + ", key="@ + shown@ + ")"@,
            StrategyNode::Tuples(children) => node_repr(node, names) == "tuples("@ + nodes_repr(
                children@,
                names,
                children@.len(),
            ) + ")"@,
            StrategyNode::OneOf(children) => node_repr(node, names) == "one_of("@ + nodes_repr(
                children@,
                names,
                children@.len(),
            ) + ")"@,
            StrategyNode::Foreign { id } => id < names.objects@.len() ==> node_repr(node, names)
                == names.objects@[id as int]@,
            _ => true,
        },
{
}

/// Arguments are separated by commas, in their order, and named ones have their names before them.
pub proof fn arguments_are_separated(
    s: Seq<StrategyNode>,
    k: Seq<NamedNode>,
    a: Seq<Atom>,
    names: Names,
    n: nat,
)
    requires
        1 < n,
    ensures
        nodes_repr(s, names, 0) == Seq::<char>::empty(),
        s.len() > 0 ==> nodes_repr(s, names, 1) == node_repr(s[0], names),
        n <= s.len() ==> nodes_repr(s, names, n) == nodes_repr(s, names, (n - 1) as nat) + ", "@
            + node_repr(s[n - 1], names),
        k.len() > 0 ==> named_repr(k, names, 1) == k[0].name@ + "="@ + node_repr(k[0].node, names),
        n <= k.len() ==> named_repr(k, names, n) == named_repr(k, names, (n - 1) as nat) + ", "@
            + k[n - 1].name@ + "="@ + node_repr(k[n - 1].node, names),
        a.len() > 0 ==> atoms_repr(a, names, 1) == atom_repr(a[0], names),
        n <= a.len() ==> atoms_repr(a, names, n) == atoms_repr(a, names, (n - 1) as nat) + ", "@
            + atom_repr(a[n - 1], names),
{
}

// ---- what is read off types -------------------------------------------------

/// Integers are values of a union where they are values of one of its parts, of other generic
/// types never, and else where the host says so.
pub proof fn unions_admit_integers_by_a_part(ts: Types, t: u64)
    requires
        t < ts.infos@.len(),
    ensures
        match ts.infos@[t as int].form {
            TypeForm::Generic(g) => {
                &&& g.origin != Origin::Union ==> !admits(ts, t, Seq::empty())
                &&& g.origin == Origin::Union ==> (admits(ts, t, Seq::empty()) <==> exists|i: int|
                    0 <= i < g.args@.len() && admits(ts, #[trigger] g.args@[i], seq![t]))
            },
            _ => admits(ts, t, Seq::empty()) == ts.infos@[t as int].admits_int,
        },
        !admits(ts, t, seq![t]),
{
    assert(Seq::<u64>::empty().push(t) =~= seq![t]);
    assert(seq![t].contains(t)) by {
        assert(seq![t][0] == t);
    }
}

/// A name that stands for a type is found in itself and in the arguments of a generic type.
pub proof fn names_for_types_are_found(ts: Types, t: u64)
    requires
        t < ts.infos@.len(),
    ensures
        match ts.infos@[t as int].form {
            TypeForm::ForwardRef(_) => mentions_forward(ts, t, Seq::empty()),
            TypeForm::Generic(g) => mentions_forward(ts, t, Seq::empty()) <==> exists|i: int|
                0 <= i < g.args@.len() && mentions_forward(ts, #[trigger] g.args@[i], seq![t]),
            _ => !mentions_forward(ts, t, Seq::empty()),
        },
{
    assert(Seq::<u64>::empty().push(t) =~= seq![t]);
}

/// Values of plain types can be hashed; of others, only those that turn out to be are let through.
pub proof fn keys_can_be_hashed(r: Plan, ts: Types, t: u64, p: Plan)
    requires
        hashable(r, ts, t, p),
        t < ts.infos@.len(),
    ensures
        match ts.infos@[t as int].form {
            TypeForm::Nil
            | TypeForm::Bool
            | TypeForm::Int
            | TypeForm::Float
            | TypeForm::Str
            | TypeForm::Bytes => r == p,
            TypeForm::Generic(_) | TypeForm::ForwardRef(_) => r is Hashable && *r->Hashable_0 == p,
            _ => r == p || (r is Hashable && *r->Hashable_0 == p),
        },
{
}

/// What a registered entry came up with is used if it is a strategy with values; an empty one and
/// what is no strategy are failures, and one that declined gives nothing.
pub proof fn entries_give_strategies(
    o: Outcome,
    k: Kept,
    entry: Seq<char>,
    thing: Seq<char>,
    p: Plan,
)
    requires
        registry_gives(o, entry, thing, p),
    ensures
        !(o is Declined),
        o == Outcome::Strategy(k) && !(k.native && k.empty) ==> p == Plan::Kept(k),
        o == Outcome::Strategy(k) && k.native && k.empty ==> p is Invalid && p->failed && p->msg@
            == "Error: "@ + thing + " resolved to an empty strategy"@,
        o is Other ==> p is Invalid && p->failed && p->msg@ == "Error: "@ + thing
            + " was registered for "@ + entry + ", but returned non-strategy "@ + o->Other_0@,
{
}

/// The union of one plan is that plan, and of more it is all of them in their order.
pub proof fn unions_hold_their_parts(p: Plan, c: Seq<Plan>)
    requires
        one_of_plan(p, c),
        c.len() > 0,
    ensures
        c.len() == 1 ==> p == c[0],
        c.len() > 1 ==> p is OneOf && p->OneOf_0@ == c,
{
}

/// The fields of a data class are those that its constructor takes, all of them, in their order.
pub proof fn constructors_take_their_fields(fields: Seq<(String, bool)>, name: Seq<char>)
    ensures
        init_names(fields).contains(name) <==> exists|i: int|
            0 <= i < fields.len() && (#[trigger] fields[i]).1 && fields[i].0@ == name,
        fields.len() > 0 ==> init_names(fields) == init_names(fields.drop_last()) + (
        if fields.last().1 {
            seq![fields.last().0@]
        } else {
            Seq::empty()
        }),
    decreases fields.len(),
{
    if fields.len() > 0 {
        let rest = fields.drop_last();
        let n = fields.len() - 1;
        constructors_take_their_fields(rest, name);
        let before = init_names(rest);
        let all = init_names(fields);
        assert(fields[n] == fields.last());
        if fields[n].1 {
            assert(all =~= before + seq![fields.last().0@]);
            assert(all[before.len() as int] == fields[n].0@);
        } else {
            assert(all =~= before + Seq::empty());
        }
        if before.contains(name) {
            assert(all[before.index_of(name)] == name);
            let i = choose|i: int|
                0 <= i < rest.len() && (#[trigger] rest[i]).1 && rest[i].0@ == name;
            assert(fields[i].1 && fields[i].0@ == name);
        }
        if exists|i: int| 0 <= i < fields.len() && (#[trigger] fields[i]).1 && fields[i].0@ == name {
            let i = choose|i: int|
                0 <= i < fields.len() && (#[trigger] fields[i]).1 && fields[i].0@ == name;
            if i < n {
                assert(rest[i] == fields[i]);
            }
        }
        if all.contains(name) && !before.contains(name) {
            let k = all.index_of(name);
            if k < before.len() {
                assert(before[k] == name);
            }
        }
    }
}

} // verus!
