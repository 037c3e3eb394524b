//! Line numbering: every line, or only the non-blank ones.
//!
//! Numbered lines are prefixed with the running index right-justified in a
//! fixed-width field followed by a tab.  When only non-blank lines are
//! numbered, blank lines pass through unchanged and do not advance the index.

use vstd::prelude::*;

use crate::text::field_text;

verus! {

/// Width of the printed line-number field.
pub const CAT_FIELD_WIDTH: usize = 6;

/// The prefix of a numbered line: the index right-justified, then a tab.
pub open spec fn line_label(idx: nat) -> Seq<char> {
    field_text(idx, CAT_FIELD_WIDTH as nat).map_values(|b: u8| b as char) + seq!['\t']
}

/// The lines from `ls` on, numbered from `idx`; blank lines pass through
/// unnumbered when `only_nonblank` is set.
pub open spec fn numbered_from(ls: Seq<Seq<char>>, only_nonblank: bool, idx: nat) -> Seq<Seq<char>>
    decreases ls.len(),
{
    if ls.len() == 0 {
        seq![]
    } else if only_nonblank && ls.first().len() == 0 {
        seq![ls.first()] + numbered_from(ls.drop_first(), only_nonblank, idx)
    } else {
        seq![line_label(idx) + ls.first()] + numbered_from(ls.drop_first(), only_nonblank, idx + 1)
    }
}

/// The output lines for the given numbering flags; numbering only non-blank
/// lines takes precedence, and without either flag the lines pass through.
pub open spec fn numbered_lines(
    ls: Seq<Seq<char>>,
    number_all: bool,
    number_nonblank: bool,
) -> Seq<Seq<char>> {
    if number_all || number_nonblank {
        numbered_from(ls, number_nonblank, 1)
    } else {
        ls
    }
}

/// Numbers `lines` according to the flags, starting from one.
pub fn number_lines(lines: &Vec<String>, number_all: bool, number_nonblank: bool) -> (out: Vec<
    String,
>)
    requires
        lines@.len() < usize::MAX,
    ensures
        out.deep_view() == numbered_lines(lines.deep_view(), number_all, number_nonblank),
{
    let ghost ls = lines.deep_view();
    let mut out: Vec<String> = Vec::new();
    let mut i: usize = 0;
    if !(number_all || number_nonblank) {
        while i < lines.len()
            invariant
                i <= lines@.len(),
                lines.deep_view() == ls,
                out.deep_view() == ls.take(i as int),
            decreases lines@.len() - i,
        {
            let ghost pre = out.deep_view();
            out.push(lines[i].clone());
            proof {
                assert(lines@[i as int].deep_view() == ls[i as int]);
                assert(out.deep_view() =~~= pre.push(ls[i as int]));
                assert(pre.push(ls[i as int]) =~~= ls.take(i + 1));
            }
            i = i + 1;
        }
        proof {
            assert(ls.take(lines@.len() as int) =~= ls);
        }
        return out;
    }
    let mut idx: usize = 1;
    proof {
        reveal_strlit("\t");
        assert(out.deep_view() =~~= Seq::<Seq<char>>::empty());
        assert(ls.skip(0) =~= ls);
        assert(out.deep_view() + numbered_from(ls.skip(0), number_nonblank, 1) =~~= numbered_from(
            ls,
            number_nonblank,
            1,
        ));
    }
    while i < lines.len()
        invariant
            i <= lines@.len(),
            lines.deep_view() == ls,
            1 <= idx <= i + 1,
            out.deep_view() + numbered_from(ls.skip(i as int), number_nonblank, idx as nat)
                == numbered_from(ls, number_nonblank, 1),
        decreases lines@.len() - i,
    {
        let ghost pre = out.deep_view();
        let ghost tail = ls.skip(i as int);
        proof {
            assert(lines@[i as int].deep_view() == ls[i as int]);
            assert(tail.first() == ls[i as int]);
            assert(tail.drop_first() =~~= ls.skip(i + 1));
        }
        if number_nonblank && lines[i].as_str().is_empty() {
            out.push(lines[i].clone());
            proof {
                assert(out.deep_view() =~~= pre.push(ls[i as int]));
                assert(pre.push(ls[i as int]) + numbered_from(
                    ls.skip(i + 1),
                    number_nonblank,
                    idx as nat,
                ) =~~= pre + numbered_from(tail, number_nonblank, idx as nat));
            }
        } else {
            let mut t = crate::text::field_string(idx, CAT_FIELD_WIDTH);
            t.append("\t");
            t.append(lines[i].as_str());
            proof {
                assert("\t"@ =~= seq!['\t']);
                assert(t@ =~= line_label(idx as nat) + ls[i as int]);
            }
            out.push(t);
            idx = idx + 1;
            proof {
                assert(out.deep_view() =~~= pre.push(line_label((idx - 1) as nat) + ls[i as int]));
                assert(pre.push(line_label((idx - 1) as nat) + ls[i as int]) + numbered_from(
                    ls.skip(i + 1),
                    number_nonblank,
                    idx as nat,
                ) =~~= pre + numbered_from(tail, number_nonblank, (idx - 1) as nat));
            }
        }
        i = i + 1;
    }
    proof {
        assert(ls.skip(lines@.len() as int) =~~= Seq::<Seq<char>>::empty());
        assert(numbered_from(Seq::<Seq<char>>::empty(), number_nonblank, idx as nat)
            == Seq::<Seq<char>>::empty());
        assert(out.deep_view() + numbered_from(ls.skip(lines@.len() as int), number_nonblank, idx as nat)
            =~~= out.deep_view());
    }
    out
}

} // verus!
