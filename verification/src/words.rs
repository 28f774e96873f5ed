//! Small tools for strings.
use vstd::prelude::*;
use vstd::string::StrSliceExecFns;

verus! {

/// Whether two strings are the same.
pub fn same_str(a: &str, b: &str) -> (r: bool)
    ensures
        r == (a@ == b@),
{
    let n: usize = a.unicode_len();
    if n != b.unicode_len() {
        return false;
    }
    let mut i: usize = 0;
    while i < n
        invariant
            i <= n,
            n == a@.len(),
            n == b@.len(),
            forall|k: int| 0 <= k < i ==> a@[k] == b@[k],
        decreases n - i,
    {
        if a.get_char(i) != b.get_char(i) {
            return false;
        }
        i = i + 1;
    }
    assert(a@ =~= b@);
    true
}

/// The strings, as sequences of characters.
pub open spec fn texts(v: Seq<String>) -> Seq<Seq<char>> {
    Seq::new(v.len(), |i: int| v[i]@)
}

/// Parts with commas between them.
pub open spec fn joined(parts: Seq<Seq<char>>) -> Seq<char>
    decreases parts.len(),
{
    if parts.len() == 0 {
        Seq::empty()
    } else if parts.len() == 1 {
        parts[0]
    } else {
        joined(parts.drop_last()) + ", "@ + parts.last()
    }
}

/// Joins parts, with commas between them.
pub fn join(parts: &Vec<String>) -> (r: String)
    ensures
        r@ == joined(texts(parts@)),
{
    let mut out = String::new();
    let mut i: usize = 0;
    assert(texts(parts@).take(0) =~= Seq::<Seq<char>>::empty());
    assert(out@ =~= Seq::<char>::empty());
    while i < parts.len()
        invariant
            i <= parts.len(),
            out@ == joined(texts(parts@).take(i as int)),
        decreases parts.len() - i,
    {
        let ghost before = out@;
        if i > 0 {
            out.append(", ");
        }
        out.append(parts[i].as_str());
        proof {
            let t = texts(parts@).take(i + 1);
            assert(t.drop_last() =~= texts(parts@).take(i as int));
            assert(t.last() == parts@[i as int]@);
            if i == 0 {
                assert(before =~= Seq::<char>::empty());
                assert(out@ =~= t[0]);
            } else {
                assert(out@ =~= joined(t));
            }
        }
        i = i + 1;
    }
    assert(texts(parts@).take(i as int) =~= texts(parts@));
    out
}

/// A string in single quotes.
pub open spec fn quoted(s: Seq<char>) -> Seq<char> {
    "'"@ + s + "'"@
}

/// Each part in single quotes.
pub open spec fn all_quoted(parts: Seq<Seq<char>>) -> Seq<Seq<char>> {
    Seq::new(parts.len(), |i: int| quoted(parts[i]))
}

pub fn quote(s: &str) -> (r: String)
    ensures
        r@ == quoted(s@),
{
    let mut out = String::new();
    out.append("'");
    out.append(s);
    out.append("'");
    assert(out@ =~= quoted(s@));
    out
}

/// Parts as a tuple of quoted strings.
pub open spec fn tuple_text(parts: Seq<Seq<char>>) -> Seq<char> {
    if parts.len() == 1 {
        "("@ + joined(all_quoted(parts)) + ",)"@
    } else {
        "("@ + joined(all_quoted(parts)) + ")"@
    }
}

/// Shows strings as a tuple.
pub fn show_tuple(parts: &Vec<String>) -> (r: String)
    ensures
        r@ == tuple_text(texts(parts@)),
{
    let mut quotes: Vec<String> = Vec::new();
    let mut i: usize = 0;
    while i < parts.len()
        invariant
            i <= parts.len(),
            quotes@.len() == i,
            forall|k: int| 0 <= k < i ==> (#[trigger] quotes@[k])@ == quoted(parts@[k]@),
        decreases parts.len() - i,
    {
        quotes.push(quote(parts[i].as_str()));
        i = i + 1;
    }
    assert(texts(quotes@) =~= all_quoted(texts(parts@)));
    let inner = join(&quotes);
    let mut out = String::new();
    out.append("(");
    out.append(inner.as_str());
    if parts.len() == 1 {
        out.append(",)");
    } else {
        out.append(")");
    }
    assert(out@ =~= tuple_text(texts(parts@)));
    out
}

} // verus!
