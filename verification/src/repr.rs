//! How strategies are shown.
use crate::integer::{decimal, Int};
use crate::nodes::{name_at, push_name, Names};
use crate::strategy::{Atom, NamedNode, StrategyNode};
use vstd::prelude::*;

verus! {

/// How a plain value is shown. Floats that stand alone in a strategy are only the
/// infinities and what is not a number.
pub open spec fn atom_repr(a: Atom, names: Names) -> Seq<char> {
    match a {
        Atom::Nil => "None"@,
        Atom::Bool(b) => if b {
            "True"@
        } else {
            "False"@
        },
        Atom::Int(n) => decimal(n as int),
        Atom::Float(f) => if f == crate::floats::INFINITY {
            "inf"@
        } else if f == crate::floats::SIGN + crate::floats::INFINITY {
            "-inf"@
        } else {
            "nan"@
        },
        Atom::Host(id) => name_at(names.objects@, id),
    }
}

/// Appends how a plain value is shown.
pub fn nice_repr(out: &mut String, a: Atom, names: &Names)
    ensures
        final(out)@ == old(out)@ + atom_repr(a, *names),
{
    match a {
        Atom::Nil => {
            out.append("None");
        },
        Atom::Bool(b) => {
            if b {
                out.append("True");
            } else {
                out.append("False");
            }
        },
        Atom::Int(n) => {
            let d = Int::of(n).to_decimal();
            out.append(d.as_str());
        },
        Atom::Float(f) => {
            if f == crate::floats::INFINITY {
                out.append("inf");
            } else if f == crate::floats::SIGN + crate::floats::INFINITY {
                out.append("-inf");
            } else {
                out.append("nan");
            }
        },
        Atom::Host(id) => {
            push_name(out, &names.objects, id);
        },
    }
}

/// The first `n` values, separated by commas.
pub open spec fn atoms_repr(s: Seq<Atom>, names: Names, n: nat) -> Seq<char>
    decreases n,
{
    if n == 0 || n > s.len() {
        Seq::empty()
    } else if n == 1 {
        atom_repr(s[0], names)
    } else {
        atoms_repr(s, names, (n - 1) as nat) + ", "@ + atom_repr(s[n - 1], names)
    }
}

/// How a function is shown.
pub fn fn_repr(out: &mut String, func: u64, names: &Names)
    ensures
        final(out)@ == old(out)@ + name_at(names.functions@, func),
{
    push_name(out, &names.functions, func);
}

/// How integers between two bounds are shown.
pub open spec fn integers_repr(min: Option<Int>, max: Option<Int>) -> Seq<char> {
    match (min, max) {
        (None, None) => "integers()"@,
        (Some(a), None) => "integers(min_value="@ + decimal(a@) + ")"@,
        (None, Some(b)) => "integers(max_value="@ + decimal(b@) + ")"@,
        (Some(a), Some(b)) => "integers("@ + decimal(a@) + ", "@ + decimal(b@) + ")"@,
    }
}

/// How a progression is shown.
pub open spec fn range_repr(start: int, stop: int, step: int) -> Seq<char> {
    if step == 1 {
        "range("@ + decimal(start) + ", "@ + decimal(stop) + ")"@
    } else {
        "range("@ + decimal(start) + ", "@ + decimal(stop) + ", "@ + decimal(step) + ")"@
    }
}

/// How a strategy is shown.
pub open spec fn node_repr(node: StrategyNode, names: Names) -> Seq<char>
    decreases node, 1int,
{
    match node {
        StrategyNode::Integers { min, max } => integers_repr(min, max),
        StrategyNode::Booleans => "booleans()"@,
        StrategyNode::Floats { .. } => "floats()"@,
        StrategyNode::NoneVal => "none()"@,
        StrategyNode::Nothing => "nothing()"@,
        StrategyNode::Just(a) => "just("@ + atom_repr(a, names) + ")"@,
        StrategyNode::Text { .. } => "text()"@,
        StrategyNode::Characters { repr, .. } => repr@,
        StrategyNode::Binary { .. } => "binary()"@,
        StrategyNode::Lists { elem, .. } => "lists("@ + node_repr(*elem, names) + ")"@,
        StrategyNode::Sets { elem, frozen, .. } => (if frozen {
            "frozensets("@
        } else {
            "sets("@
        }) + node_repr(*elem, names) + ")"@,
        StrategyNode::Dictionaries { keys, values, .. } => "dictionaries(keys="@ + node_repr(
            *keys,
            names,
        ) + ", values="@ + node_repr(*values, names) + ")"@,
        StrategyNode::Tuples(children) => "tuples("@ + nodes_repr(
            children@,
            names,
            children@.len(),
        ) + ")"@,
        StrategyNode::OneOf(children) => "one_of("@ + nodes_repr(
            children@,
            names,
            children@.len(),
        ) + ")"@,
        StrategyNode::SampledFrom { elements, is_tuple } => if is_tuple {
            if elements@.len() == 1 {
                "sampled_from(("@ + atom_repr(elements@[0], names) + ",))"@
            } else {
                "sampled_from(("@ + atoms_repr(elements@, names, elements@.len()) + "))"@
            }
        } else {
            "sampled_from(["@ + atoms_repr(elements@, names, elements@.len()) + "])"@
        },
        StrategyNode::SampledFromRange { start, stop, step, .. } => "sampled_from("@ + range_repr(
            start@,
            stop@,
            step@,
        ) + ")"@,
        StrategyNode::Mapped { base, func } => node_repr(*base, names) + ".map("@ + name_at(
            names.functions@,
            func,
        ) + ")"@,
        StrategyNode::Filtered { base, func } => node_repr(*base, names) + ".filter("@ + name_at(
            names.functions@,
            func,
        ) + ")"@,
        StrategyNode::Flatmapped { base, func } => node_repr(*base, names) + ".flatmap("@ + name_at(
            names.functions@,
            func,
        ) + ")"@,
        StrategyNode::Builds { target, args, kwargs } => {
            let name = name_at(names.functions@, target);
            if args@.len() + kwargs@.len() == 0 {
                "builds("@ + name + ")"@
            } else {
                "builds("@ + name + ", "@ + nodes_repr(args@, names, args@.len()) + (
                if args@.len() > 0 && kwargs@.len() > 0 {
                    ", "@
                } else {
                    Seq::<char>::empty()
                }) + named_repr(kwargs@, names, kwargs@.len()) + ")"@
            }
        },
        StrategyNode::Uuids { .. } => "uuids()"@,
        StrategyNode::Dates { .. } => "dates()"@,
        StrategyNode::Times { .. } => "times()"@,
        StrategyNode::Datetimes { .. } => "datetimes()"@,
        StrategyNode::Timedeltas { .. } => "timedeltas()"@,
        StrategyNode::ComplexNumbers { .. } => "complex_numbers()"@,
        StrategyNode::Fractions { .. } => "fractions()"@,
        StrategyNode::Decimals { .. } => "decimals()"@,
        StrategyNode::Data => "data()"@,
        StrategyNode::Randoms { .. } => "randoms()"@,
        StrategyNode::Functions { id, result, pure } => "functions(like="@ + name_at(
            names.functions@,
            id,
        ) + ", returns="@ + node_repr(*result, names) + ", pure="@ + (if pure {
            "True"@
        } else {
            "False"@
        }) + ")"@,
        StrategyNode::Shared { base, shown, .. } => "shared("@ + node_repr(*base, names) + ", key="@
            + shown@ + ")"@,
        StrategyNode::Foreign { id } => name_at(names.objects@, id),
        _ => "SearchStrategy(...)"@,
    }
}

/// The first `n` strategies, separated by commas.
pub open spec fn nodes_repr(s: Seq<StrategyNode>, names: Names, n: nat) -> Seq<char>
    decreases s, n,
{
    if n == 0 || n > s.len() {
        Seq::empty()
    } else if n == 1 {
        node_repr(s[0], names)
    } else {
        nodes_repr(s, names, (n - 1) as nat) + ", "@ + node_repr(s[n - 1], names)
    }
}

/// The first `n` named strategies, separated by commas.
pub open spec fn named_repr(s: Seq<NamedNode>, names: Names, n: nat) -> Seq<char>
    decreases s, n,
{
    if n == 0 || n > s.len() {
        Seq::empty()
    } else if n == 1 {
        s[0].name@ + "="@ + node_repr(s[0].node, names)
    } else {
        named_repr(s, names, (n - 1) as nat) + ", "@ + s[n - 1].name@ + "="@ + node_repr(
            s[n - 1].node,
            names,
        )
    }
}

fn push_atoms(out: &mut String, s: &Vec<Atom>, names: &Names)
    ensures
        final(out)@ == old(out)@ + atoms_repr(s@, *names, s@.len()),
{
    let ghost start = out@;
    let mut i: usize = 0;
    assert(out@ =~= start + atoms_repr(s@, *names, 0));
    while i < s.len()
        invariant
            i <= s.len(),
            out@ == start + atoms_repr(s@, *names, i as nat),
        decreases s.len() - i,
    {
        if i > 0 {
            out.append(", ");
        }
        nice_repr(out, s[i], names);
        assert(out@ =~= start + atoms_repr(s@, *names, (i + 1) as nat));
        i = i + 1;
    }
}

fn push_nodes(out: &mut String, s: &Vec<StrategyNode>, names: &Names)
    ensures
        final(out)@ == old(out)@ + nodes_repr(s@, *names, s@.len()),
    decreases s, 0int,
{
    let ghost start = out@;
    let mut i: usize = 0;
    assert(out@ =~= start + nodes_repr(s@, *names, 0));
    while i < s.len()
        invariant
            i <= s.len(),
            out@ == start + nodes_repr(s@, *names, i as nat),
        decreases s.len() - i,
    {
        if i > 0 {
            out.append(", ");
        }
        push_node(out, &s[i], names);
        assert(out@ =~= start + nodes_repr(s@, *names, (i + 1) as nat));
        i = i + 1;
    }
}

fn push_integers(out: &mut String, min: &Option<Int>, max: &Option<Int>)
    ensures
        final(out)@ == old(out)@ + integers_repr(*min, *max),
{
    let ghost start = out@;
    match (min, max) {
        (None, None) => {
            out.append("integers()");
        },
        (Some(a), None) => {
            let d = a.to_decimal();
            out.append("integers(min_value=");
            out.append(d.as_str());
            out.append(")");
        },
        (None, Some(b)) => {
            let d = b.to_decimal();
            out.append("integers(max_value=");
            out.append(d.as_str());
            out.append(")");
        },
        (Some(a), Some(b)) => {
            let d = a.to_decimal();
            let e = b.to_decimal();
            out.append("integers(");
            out.append(d.as_str());
            out.append(", ");
            out.append(e.as_str());
            out.append(")");
        },
    }
    assert(out@ =~= start + integers_repr(*min, *max));
}

fn push_range(out: &mut String, start: &Int, stop: &Int, step: &Int)
    ensures
        final(out)@ == old(out)@ + range_repr(start@, stop@, step@),
{
    let ghost before = out@;
    let a = start.to_decimal();
    let b = stop.to_decimal();
    out.append("range(");
    out.append(a.as_str());
    out.append(", ");
    out.append(b.as_str());
    if !step.same(&Int::of(1)) {
        let c = step.to_decimal();
        out.append(", ");
        out.append(c.as_str());
    }
    out.append(")");
    assert(out@ =~= before + range_repr(start@, stop@, step@));
}

fn push_call(out: &mut String, base: &StrategyNode, method: &str, func: u64, names: &Names)
    ensures
        final(out)@ == old(out)@ + (node_repr(*base, *names) + method@ + name_at(
            names.functions@,
            func,
        ) + ")"@),
    decreases base, 3int,
{
    let ghost start = out@;
    push_node(out, base, names);
    out.append(method);
    fn_repr(out, func, names);
    out.append(")");
    assert(out@ =~= start + (node_repr(*base, *names) + method@ + name_at(names.functions@, func)
        + ")"@));
}

fn push_built(out: &mut String, node: &StrategyNode, names: &Names)
    requires
        node is Builds,
    ensures
        final(out)@ == old(out)@ + node_repr(*node, *names),
    decreases node, 1int,
{
    let ghost start = out@;
    if let StrategyNode::Builds { target, args, kwargs } = node {
        out.append("builds(");
        fn_repr(out, *target, names);
        if args.len() > 0 || kwargs.len() > 0 {
            out.append(", ");
            push_nodes(out, args, names);
            if args.len() > 0 && kwargs.len() > 0 {
                out.append(", ");
            }
            let ghost before = out@;
            let mut i: usize = 0;
            assert(out@ =~= before + named_repr(kwargs@, *names, 0));
            while i < kwargs.len()
                invariant
                    i <= kwargs.len(),
                    node is Builds,
                    node->Builds_kwargs == *kwargs,
                    out@ == before + named_repr(kwargs@, *names, i as nat),
                decreases kwargs.len() - i,
            {
                if i > 0 {
                    out.append(", ");
                }
                out.append(kwargs[i].name.as_str());
                out.append("=");
                push_node(out, &kwargs[i].node, names);
                assert(out@ =~= before + named_repr(kwargs@, *names, (i + 1) as nat));
                i = i + 1;
            }
            out.append(")");
            assert(out@ =~= start + node_repr(*node, *names));
        } else {
            out.append(")");
            assert(out@ =~= start + node_repr(*node, *names));
        }
    }
}

fn push_sample(out: &mut String, elements: &Vec<Atom>, is_tuple: bool, names: &Names)
    ensures
        final(out)@ == old(out)@ + (if is_tuple {
            if elements@.len() == 1 {
                "sampled_from(("@ + atom_repr(elements@[0], *names) + ",))"@
            } else {
                "sampled_from(("@ + atoms_repr(elements@, *names, elements@.len()) + "))"@
            }
        } else {
            "sampled_from(["@ + atoms_repr(elements@, *names, elements@.len()) + "])"@
        }),
{
    let ghost start = out@;
    if is_tuple {
        out.append("sampled_from((");
        if elements.len() == 1 {
            nice_repr(out, elements[0], names);
            out.append(",))");
            assert(out@ =~= start + ("sampled_from(("@ + atom_repr(elements@[0], *names)
                + ",))"@));
        } else {
            push_atoms(out, elements, names);
            out.append("))");
            assert(out@ =~= start + ("sampled_from(("@ + atoms_repr(
                elements@,
                *names,
                elements@.len(),
            ) + "))"@));
        }
    } else {
        out.append("sampled_from([");
        push_atoms(out, elements, names);
        out.append("])");
        assert(out@ =~= start + ("sampled_from(["@ + atoms_repr(elements@, *names, elements@.len())
            + "])"@));
    }
}

/// Appends how a collection is shown.
fn push_collection(out: &mut String, node: &StrategyNode, names: &Names)
    requires
        node is Lists || node is Sets || node is Dictionaries || node is Tuples || node is OneOf,
    ensures
        final(out)@ == old(out)@ + node_repr(*node, *names),
    decreases node, 1int,
{
    let ghost start = out@;
    match node {
        StrategyNode::Lists { elem, .. } => {
            out.append("lists(");
            push_node(out, elem, names);
            out.append(")");
        },
        StrategyNode::Sets { elem, frozen, .. } => {
            if *frozen {
                out.append("frozensets(");
            } else {
                out.append("sets(");
            }
            push_node(out, elem, names);
            out.append(")");
        },
        StrategyNode::Dictionaries { keys, values, .. } => {
            out.append("dictionaries(keys=");
            push_node(out, keys, names);
            out.append(", values=");
            push_node(out, values, names);
            out.append(")");
        },
        StrategyNode::Tuples(children) => {
            out.append("tuples(");
            push_nodes(out, children, names);
            out.append(")");
        },
        StrategyNode::OneOf(children) => {
            out.append("one_of(");
            push_nodes(out, children, names);
            out.append(")");
        },
        _ => {},
    }
    assert(out@ =~= start + node_repr(*node, *names));
}

/// Appends how a strategy is shown.
fn push_node(out: &mut String, node: &StrategyNode, names: &Names)
    ensures
        final(out)@ == old(out)@ + node_repr(*node, *names),
    decreases node, 2int,
{
    let ghost start = out@;
    match node {
        StrategyNode::Integers { min, max } => {
            push_integers(out, min, max);
        },
        StrategyNode::Booleans => {
            out.append("booleans()");
        },
        StrategyNode::Floats { .. } => {
            out.append("floats()");
        },
        StrategyNode::NoneVal => {
            out.append("none()");
        },
        StrategyNode::Nothing => {
            out.append("nothing()");
        },
        StrategyNode::Just(a) => {
            out.append("just(");
            nice_repr(out, *a, names);
            out.append(")");
            assert(out@ =~= start + node_repr(*node, *names));
        },
        StrategyNode::Text { .. } => {
            out.append("text()");
        },
        StrategyNode::Characters { repr, .. } => {
            out.append(repr.as_str());
        },
        StrategyNode::Binary { .. } => {
            out.append("binary()");
        },
        StrategyNode::Lists { .. } => {
            push_collection(out, node, names);
        },
        StrategyNode::Sets { .. } => {
            push_collection(out, node, names);
        },
        StrategyNode::Dictionaries { .. } => {
            push_collection(out, node, names);
        },
        StrategyNode::Tuples(_) => {
            push_collection(out, node, names);
        },
        StrategyNode::OneOf(_) => {
            push_collection(out, node, names);
        },
        StrategyNode::SampledFrom { elements, is_tuple } => {
            push_sample(out, elements, *is_tuple, names);
        },
        StrategyNode::SampledFromRange { start: first, stop, step, .. } => {
            out.append("sampled_from(");
            push_range(out, first, stop, step);
            out.append(")");
            assert(out@ =~= start + node_repr(*node, *names));
        },
        StrategyNode::Mapped { base, func } => {
            push_call(out, base, ".map(", *func, names);
        },
        StrategyNode::Filtered { base, func } => {
            push_call(out, base, ".filter(", *func, names);
        },
        StrategyNode::Flatmapped { base, func } => {
            push_call(out, base, ".flatmap(", *func, names);
        },
        StrategyNode::Builds { .. } => {
            push_built(out, node, names);
        },
        StrategyNode::Uuids { .. } => {
            out.append("uuids()");
        },
        StrategyNode::Dates { .. } => {
            out.append("dates()");
        },
        StrategyNode::Times { .. } => {
            out.append("times()");
        },
        StrategyNode::Datetimes { .. } => {
            out.append("datetimes()");
        },
        StrategyNode::Timedeltas { .. } => {
            out.append("timedeltas()");
        },
        StrategyNode::ComplexNumbers { .. } => {
            out.append("complex_numbers()");
        },
        StrategyNode::Fractions { .. } => {
            out.append("fractions()");
        },
        StrategyNode::Decimals { .. } => {
            out.append("decimals()");
        },
        StrategyNode::Data => {
            out.append("data()");
        },
        StrategyNode::Randoms { .. } => {
            out.append("randoms()");
        },
        StrategyNode::Functions { id, result, pure } => {
            out.append("functions(like=");
            fn_repr(out, *id, names);
            out.append(", returns=");
            push_node(out, result, names);
            out.append(", pure=");
            if *pure {
                out.append("True");
            } else {
                out.append("False");
            }
            out.append(")");
            assert(out@ =~= start + node_repr(*node, *names));
        },
        StrategyNode::Shared { base, shown, .. } => {
            out.append("shared(");
            push_node(out, base, names);
            out.append(", key=");
            out.append(shown.as_str());
            out.append(")");
            assert(out@ =~= start + node_repr(*node, *names));
        },
        StrategyNode::Foreign { id } => {
            push_name(out, &names.objects, *id);
        },
        _ => {
            out.append("SearchStrategy(...)");
        },
    }
}

/// How a strategy is shown.
pub fn repr_node(node: &StrategyNode, names: &Names) -> (r: String)
    ensures
        r@ == node_repr(*node, *names),
{
    let mut out = String::new();
    push_node(&mut out, node, names);
    assert(out@ =~= node_repr(*node, *names));
    out
}

/// How a part of a strategy is shown.
pub fn child_repr(child: &StrategyNode, names: &Names) -> (r: String)
    ensures
        r@ == node_repr(*child, *names),
{
    repr_node(child, names)
}

/// What is noted when a filter has refused something for the first time.
pub fn record_filter_retry_event(base: &StrategyNode, func: u64, names: &Names) -> (r: String)
    ensures
        r@ == "Retried draw from "@ + node_repr(*base, *names) + ".filter("@ + name_at(
            names.functions@,
            func,
        ) + ") to satisfy filter"@,
{
    let mut out = String::new();
    out.append("Retried draw from ");
    push_node(&mut out, base, names);
    out.append(".filter(");
    fn_repr(&mut out, func, names);
    out.append(") to satisfy filter");
    assert(out@ =~= "Retried draw from "@ + node_repr(*base, *names) + ".filter("@ + name_at(
        names.functions@,
        func,
    ) + ") to satisfy filter"@);
    out
}

} // verus!
