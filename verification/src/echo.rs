//! Echoing of arguments: joined with single spaces, with an optional final
//! newline.

use vstd::prelude::*;

verus! {

/// The arguments joined with one space between each pair.
pub open spec fn joined_spec(parts: Seq<Seq<char>>) -> Seq<char>
    decreases parts.len(),
{
    if parts.len() == 0 {
        seq![]
    } else if parts.len() == 1 {
        parts.first()
    } else {
        joined_spec(parts.drop_last()) + seq![' '] + parts.last()
    }
}

/// Joins `parts` with single spaces; ends with a newline unless suppressed.
pub fn joined(parts: &Vec<String>, omit_newline: bool) -> (r: String)
    ensures
        r@ == joined_spec(parts.deep_view()) + if omit_newline {
            Seq::<char>::empty()
        } else {
            seq!['\n']
        },
{
    let ghost ps = parts.deep_view();
    let mut r = String::new();
    let mut i: usize = 0;
    proof {
        reveal_strlit(" ");
        reveal_strlit("\n");
        assert(joined_spec(ps.take(0)) =~= Seq::<char>::empty());
        assert(r@ =~= joined_spec(ps.take(0)));
    }
    while i < parts.len()
        invariant
            i <= parts@.len(),
            parts.deep_view() == ps,
            r@ == joined_spec(ps.take(i as int)),
        decreases parts@.len() - i,
    {
        if i > 0 {
            r.append(" ");
            proof {
                assert(" "@ =~= seq![' ']);
            }
        }
        r.append(parts[i].as_str());
        proof {
            assert(parts@[i as int].deep_view() == ps[i as int]);
            assert(ps.take(i + 1).drop_last() =~= ps.take(i as int));
            assert(ps.take(i + 1).last() == ps[i as int]);
            if i > 0 {
                assert(r@ =~= joined_spec(ps.take(i + 1)));
            } else {
                assert(joined_spec(ps.take(1)) == ps[0]);
                assert(r@ =~= joined_spec(ps.take(1)));
            }
        }
        i = i + 1;
    }
    proof {
        assert(ps.take(parts@.len() as int) =~= ps);
    }
    if !omit_newline {
        r.append("\n");
        proof {
            assert("\n"@ =~= seq!['\n']);
        }
    }
    proof {
        if omit_newline {
            assert(r@ =~= joined_spec(ps) + Seq::<char>::empty());
        }
    }
    r
}

} // verus!
