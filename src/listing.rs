use vstd::prelude::*;
use vstd::string::StringExecFns;

verus! {

/// The items joined by `", "`.
pub open spec fn joined(items: Seq<Seq<char>>) -> Seq<char>
    decreases items.len(),
{
    if items.len() == 0 {
        Seq::empty()
    } else if items.len() == 1 {
        items[0]
    } else {
        joined(items.drop_last()) + seq![',', ' '] + items.last()
    }
}

/// The items in brackets, comma-separated: `[ a, b, c ]`.
pub open spec fn listing(items: Seq<Seq<char>>) -> Seq<char> {
    seq!['[', ' '] + joined(items) + seq![' ', ']']
}

/// The texts of `items` in order.
pub open spec fn texts(items: Seq<String>) -> Seq<Seq<char>> {
    items.map_values(|s: String| s@)
}

/// Writes `items` as a bracketed, comma-separated listing.
pub fn render(items: &Vec<String>) -> (r: String)
    ensures
        r@ == listing(texts(items@)),
{
    let mut out = String::new();
    out.append("[ ");
    proof {
        reveal_strlit("[ ");
    }
    let n = items.len();
    let mut i: usize = 0;
    while i < n
        invariant
            i <= n,
            n == items@.len(),
            out@ == seq!['[', ' '] + joined(texts(items@.take(i as int))),
        decreases n - i,
    {
        let ghost before = out@;
        proof {
            assert(texts(items@.take(i + 1)).drop_last() =~= texts(items@.take(i as int)));
            reveal_strlit(", ");
        }
        if i > 0 {
            out.append(", ");
        }
        out.append(items[i].as_str());
        i = i + 1;
        proof {
            let t = texts(items@.take(i as int));
            assert(t.last() == items@[i - 1]@);
            let prev = texts(items@.take(i - 1));
            assert(t.drop_last() =~= prev);
            if i == 1 {
                assert(joined(t) == t[0]);
                assert(out@ =~= seq!['[', ' '] + joined(t));
            } else {
                assert(joined(t) == joined(prev) + seq![',', ' '] + t.last());
                assert(out@ =~= seq!['[', ' '] + joined(t));
            }
        }
    }
    out.append(" ]");
    proof {
        reveal_strlit(" ]");
        assert(items@.take(n as int) =~= items@);
    }
    out
}

} // verus!
