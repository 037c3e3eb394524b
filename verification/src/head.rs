//! Leading-portion selection: the first lines or bytes of an input.

use vstd::prelude::*;

use crate::lines::{concat_all, lemma_concat_all_snoc, lines_of, split_lines};

verus! {

/// The first `n` lines of `s` (all of them when there are fewer),
/// terminators kept.
pub open spec fn head_lines_spec(s: Seq<u8>, n: nat) -> Seq<u8> {
    let ls = lines_of(s);
    let m = if n <= ls.len() {
        n as int
    } else {
        ls.len() as int
    };
    concat_all(ls.take(m))
}

/// The first `n` bytes of `s` (all of them when there are fewer).
pub open spec fn head_bytes_spec(s: Seq<u8>, n: nat) -> Seq<u8> {
    if n <= s.len() {
        s.take(n as int)
    } else {
        s
    }
}

/// Returns the first `n` lines of `input`, terminators kept.
pub fn head_lines(input: &[u8], n: usize) -> (out: Vec<u8>)
    ensures
        out@ == head_lines_spec(input@, n as nat),
{
    let lines = split_lines(input);
    let ghost ls = lines_of(input@);
    let m = if n <= lines.len() {
        n
    } else {
        lines.len()
    };
    let mut out: Vec<u8> = Vec::new();
    let mut i: usize = 0;
    proof {
        assert(ls.take(0) =~~= Seq::<Seq<u8>>::empty());
        assert(concat_all(ls.take(0)) == Seq::<u8>::empty());
        assert(out@ =~= concat_all(ls.take(0)));
    }
    while i < m
        invariant
            i <= m <= lines@.len(),
            lines.deep_view() == ls,
            out@ == concat_all(ls.take(i as int)),
        decreases m - i,
    {
        proof {
            assert(lines@[i as int].deep_view() =~= lines@[i as int]@);
            assert(ls.take(i + 1) =~~= ls.take(i as int).push(ls[i as int]));
            lemma_concat_all_snoc(ls.take(i as int), ls[i as int]);
        }
        out.extend_from_slice(lines[i].as_slice());
        proof {
            assert(out@ =~= concat_all(ls.take(i + 1)));
        }
        i = i + 1;
    }
    out
}

/// Returns the first `n` bytes of `input`.
pub fn head_bytes(input: &[u8], n: usize) -> (out: Vec<u8>)
    ensures
        out@ == head_bytes_spec(input@, n as nat),
{
    let m = if n <= input.len() {
        n
    } else {
        input.len()
    };
    let out = vstd::slice::slice_to_vec(vstd::slice::slice_subrange(input, 0, m));
    proof {
        assert(input@.subrange(0, m as int) =~= head_bytes_spec(input@, n as nat));
    }
    out
}

} // verus!
