//! Collapsing of adjacent duplicate lines.
//!
//! The input's lines are grouped into maximal runs of consecutive lines that
//! are equal once trailing terminator bytes are dropped.  Each run is emitted
//! once, as its first line, optionally prefixed with the run length
//! right-justified in a fixed-width field.  Only adjacent duplicates collapse:
//! no sorting, no global deduplication.

use vstd::prelude::*;

use crate::lines::{
    concat_all, eq_trimmed, is_line, lemma_concat_all_snoc, lemma_lines_of_concat,
    lemma_lines_of_wf, lines_of, split_lines, terminated, trimmed,
};
use crate::text::{field_text, SPACE};

verus! {

/// Width of the printed run-length field.
pub const RUN_FIELD_WIDTH: usize = 4;

/// The maximal runs of consecutive lines of `ls` that are equal after
/// trimming, each as its first line paired with the run length.
pub open spec fn runs_of(ls: Seq<Seq<u8>>) -> Seq<(Seq<u8>, nat)>
    decreases ls.len(),
{
    if ls.len() == 0 {
        seq![]
    } else {
        let prev = runs_of(ls.drop_last());
        let l = ls.last();
        if prev.len() > 0 && trimmed(prev.last().0) == trimmed(l) {
            prev.update(prev.len() - 1, (prev.last().0, prev.last().1 + 1))
        } else {
            prev.push((l, 1nat))
        }
    }
}

/// One emitted run: the representative line, prefixed with the run length
/// when counts are requested.
pub open spec fn rendered_run(rep: Seq<u8>, len: nat, counts: bool) -> Seq<u8> {
    if counts {
        field_text(len, RUN_FIELD_WIDTH as nat) + seq![SPACE] + rep
    } else {
        rep
    }
}

/// The emitted output for a sequence of runs.
pub open spec fn rendered(runs: Seq<(Seq<u8>, nat)>, counts: bool) -> Seq<u8>
    decreases runs.len(),
{
    if runs.len() == 0 {
        seq![]
    } else {
        rendered(runs.drop_last(), counts) + rendered_run(runs.last().0, runs.last().1, counts)
    }
}

/// The collapsed output for the raw input `s`.
pub open spec fn collapsed(s: Seq<u8>, counts: bool) -> Seq<u8> {
    rendered(runs_of(lines_of(s)), counts)
}

/// Sum of the lengths of a sequence of runs.
pub open spec fn run_total(runs: Seq<(Seq<u8>, nat)>) -> nat
    decreases runs.len(),
{
    if runs.len() == 0 {
        0
    } else {
        run_total(runs.drop_last()) + runs.last().1
    }
}

/// Every run representative is one of the input lines.
pub proof fn lemma_runs_reps_are_lines(ls: Seq<Seq<u8>>)
    ensures
        forall|k: int| 0 <= k < runs_of(ls).len() ==> #[trigger] ls.contains(runs_of(ls)[k].0),
    decreases ls.len(),
{
    if ls.len() > 0 {
        lemma_runs_reps_are_lines(ls.drop_last());
        let prev = runs_of(ls.drop_last());
        let l = ls.last();
        let runs = runs_of(ls);
        assert forall|k: int| 0 <= k < runs.len() implies #[trigger] ls.contains(runs[k].0) by {
            if k < prev.len() {
                assert(runs[k].0 == prev[k].0);
                assert(ls.drop_last().contains(prev[k].0));
                let i = choose|i: int|
                    0 <= i < ls.drop_last().len() && ls.drop_last()[i] == prev[k].0;
                assert(ls[i] == prev[k].0);
            } else {
                assert(runs[k] == (l, 1nat));
                assert(ls[ls.len() - 1] == l);
            }
        }
    }
}

/// Representatives of adjacent runs differ once trimmed.
pub proof fn lemma_runs_adjacent_differ(ls: Seq<Seq<u8>>)
    ensures
        forall|k: int|
            0 <= k < runs_of(ls).len() - 1 ==> trimmed(#[trigger] runs_of(ls)[k].0) != trimmed(
                runs_of(ls)[k + 1].0,
            ),
    decreases ls.len(),
{
    if ls.len() > 0 {
        lemma_runs_adjacent_differ(ls.drop_last());
        let prev = runs_of(ls.drop_last());
        let l = ls.last();
        let runs = runs_of(ls);
        assert forall|k: int| 0 <= k < runs.len() - 1 implies trimmed(
            #[trigger] runs[k].0,
        ) != trimmed(runs[k + 1].0) by {
            assert(runs[k].0 == prev[k].0);
            if k + 1 < prev.len() {
                assert(runs[k + 1].0 == prev[k + 1].0);
            } else {
                assert(runs[k + 1].0 == l);
                assert(prev[k].0 == prev.last().0);
            }
        }
    }
}

/// When all input lines are terminated, so is every run representative.
proof fn lemma_runs_reps_terminated(ls: Seq<Seq<u8>>)
    requires
        forall|i: int| 0 <= i < ls.len() ==> terminated(#[trigger] ls[i]),
    ensures
        forall|k: int| 0 <= k < runs_of(ls).len() ==> terminated(#[trigger] runs_of(ls)[k].0),
{
    lemma_runs_reps_are_lines(ls);
    let runs = runs_of(ls);
    assert forall|k: int| 0 <= k < runs.len() implies terminated(#[trigger] runs[k].0) by {
        assert(ls.contains(runs[k].0));
        let i = choose|i: int| 0 <= i < ls.len() && ls[i] == runs[k].0;
        assert(terminated(ls[i]));
    }
}

/// All but the last run representative keep their line-feed terminator,
/// because only the input's final line can lack one.
pub proof fn lemma_runs_middle_terminated(ls: Seq<Seq<u8>>)
    requires
        forall|i: int| 0 <= i < ls.len() - 1 ==> terminated(#[trigger] ls[i]),
    ensures
        forall|k: int| 0 <= k < runs_of(ls).len() - 1 ==> terminated(#[trigger] runs_of(ls)[k].0),
    decreases ls.len(),
{
    if ls.len() > 0 {
        let front = ls.drop_last();
        assert forall|i: int| 0 <= i < front.len() implies terminated(#[trigger] front[i]) by {
            assert(front[i] == ls[i]);
        }
        lemma_runs_reps_terminated(front);
        let prev = runs_of(front);
        let l = ls.last();
        let runs = runs_of(ls);
        assert forall|k: int| 0 <= k < runs.len() - 1 implies terminated(#[trigger] runs[k].0) by {
            assert(runs[k].0 == prev[k].0);
        }
    }
}

/// On a sequence of lines without adjacent duplicates, every run has length
/// one.
pub proof fn lemma_runs_singletons(ls: Seq<Seq<u8>>)
    requires
        forall|k: int| 0 <= k < ls.len() - 1 ==> trimmed(#[trigger] ls[k]) != trimmed(ls[k + 1]),
    ensures
        runs_of(ls) == ls.map_values(|l: Seq<u8>| (l, 1nat)),
    decreases ls.len(),
{
    if ls.len() > 0 {
        let front = ls.drop_last();
        assert forall|k: int| 0 <= k < front.len() - 1 implies trimmed(#[trigger] front[k])
            != trimmed(front[k + 1]) by {
            assert(front[k] == ls[k]);
            assert(front[k + 1] == ls[k + 1]);
        }
        lemma_runs_singletons(front);
        let prev = runs_of(front);
        if ls.len() >= 2 {
            assert(prev.last().0 == front[front.len() - 1]);
            assert(trimmed(ls[ls.len() - 2]) != trimmed(ls[ls.len() - 1]));
        }
        assert(runs_of(ls) =~~= ls.map_values(|l: Seq<u8>| (l, 1nat)));
    }
}

/// The representatives of a sequence of runs, in order.
pub open spec fn reps_of(runs: Seq<(Seq<u8>, nat)>) -> Seq<Seq<u8>> {
    runs.map_values(|r: (Seq<u8>, nat)| r.0)
}

/// With counts disabled, the output is exactly the concatenation of the run
/// representatives.
pub proof fn lemma_rendered_plain(runs: Seq<(Seq<u8>, nat)>)
    ensures
        rendered(runs, false) == concat_all(reps_of(runs)),
    decreases runs.len(),
{
    if runs.len() == 0 {
        assert(reps_of(runs) =~~= Seq::<Seq<u8>>::empty());
        assert(concat_all(Seq::<Seq<u8>>::empty()) == Seq::<u8>::empty());
    } else {
        lemma_rendered_plain(runs.drop_last());
        assert(reps_of(runs) =~~= reps_of(runs.drop_last()).push(runs.last().0));
        lemma_concat_all_snoc(reps_of(runs.drop_last()), runs.last().0);
    }
}

/// The emitted run lengths add up to the number of input lines.
pub proof fn lemma_run_total(ls: Seq<Seq<u8>>)
    ensures
        run_total(runs_of(ls)) == ls.len(),
    decreases ls.len(),
{
    if ls.len() > 0 {
        lemma_run_total(ls.drop_last());
        let prev = runs_of(ls.drop_last());
        let l = ls.last();
        let runs = runs_of(ls);
        if prev.len() > 0 && trimmed(prev.last().0) == trimmed(l) {
            assert(runs.drop_last() =~~= prev.drop_last());
            assert(runs.last().1 == prev.last().1 + 1);
        } else {
            assert(runs.drop_last() =~~= prev);
        }
    }
}

/// The sum of all emitted run lengths equals the total number of input lines.
pub proof fn lemma_collapse_preserves_line_total(s: Seq<u8>)
    ensures
        run_total(runs_of(lines_of(s))) == lines_of(s).len(),
        run_total(runs_of(lines_of(s))) == crate::tally::line_count(s),
{
    lemma_run_total(lines_of(s));
    crate::tally::lemma_line_count_is_record_count(s);
}

/// Collapsing with counts disabled is a fixed point: re-collapsing collapsed
/// output changes nothing, since no two adjacent output lines are equal.
pub proof fn lemma_collapse_fixed_point(s: Seq<u8>)
    ensures
        collapsed(collapsed(s, false), false) == collapsed(s, false),
{
    let ls = lines_of(s);
    let runs = runs_of(ls);
    let reps = reps_of(runs);
    lemma_lines_of_wf(s);
    lemma_runs_reps_are_lines(ls);
    lemma_runs_middle_terminated(ls);
    lemma_rendered_plain(runs);
    assert forall|k: int| 0 <= k < reps.len() implies is_line(#[trigger] reps[k]) by {
        assert(reps[k] == runs[k].0);
        assert(ls.contains(runs[k].0));
        let i = choose|i: int| 0 <= i < ls.len() && ls[i] == runs[k].0;
        assert(is_line(ls[i]));
    }
    assert forall|k: int| 0 <= k < reps.len() - 1 implies terminated(#[trigger] reps[k]) by {
        assert(reps[k] == runs[k].0);
    }
    lemma_lines_of_concat(reps);
    assert(lines_of(collapsed(s, false)) == reps);
    lemma_runs_adjacent_differ(ls);
    assert forall|k: int| 0 <= k < reps.len() - 1 implies trimmed(#[trigger] reps[k]) != trimmed(
        reps[k + 1],
    ) by {
        assert(reps[k] == runs[k].0);
        assert(reps[k + 1] == runs[k + 1].0);
    }
    lemma_runs_singletons(reps);
    lemma_rendered_plain(runs_of(reps));
    assert(reps_of(runs_of(reps)) =~~= reps);
}

/// Copies a byte vector.
fn clone_bytes(v: &Vec<u8>) -> (r: Vec<u8>)
    ensures
        r@ == v@,
{
    vstd::slice::slice_to_vec(v.as_slice())
}

/// Appends one emitted run to `out`: the optional right-justified length
/// prefix, then the representative line.
fn flush_run(out: &mut Vec<u8>, rep: &Vec<u8>, cnt: usize, emit_counts: bool)
    ensures
        final(out)@ == old(out)@ + rendered_run(rep@, cnt as nat, emit_counts),
{
    let ghost pre = out@;
    if emit_counts {
        let mut f = crate::text::field_bytes(cnt, RUN_FIELD_WIDTH);
        out.append(&mut f);
        out.push(SPACE);
    }
    let mut r = clone_bytes(rep);
    out.append(&mut r);
    proof {
        if emit_counts {
            assert(out@ =~= pre + rendered_run(rep@, cnt as nat, emit_counts));
        } else {
            assert(out@ =~= pre + rep@);
        }
    }
}

/// Emits one representative per maximal run of consecutive equal lines
/// (equality after trimming trailing terminator bytes), each optionally
/// prefixed with the run length.
pub fn collapse(input: &[u8], emit_counts: bool) -> (out: Vec<u8>)
    ensures
        out@ == collapsed(input@, emit_counts),
{
    let lines = split_lines(input);
    let ghost ls = lines_of(input@);
    let mut out: Vec<u8> = Vec::new();
    if lines.len() == 0 {
        proof {
            assert(ls.len() == 0);
            assert(out@ =~= collapsed(input@, emit_counts));
        }
        return out;
    }
    let mut rep = clone_bytes(&lines[0]);
    let mut cnt: usize = 1;
    let mut i: usize = 1;
    proof {
        assert(ls.take(1).drop_last() =~= Seq::<Seq<u8>>::empty());
        assert(ls.take(1).last() == ls[0]);
        assert(lines@[0].deep_view() == ls[0]);
        assert(rep@ =~= ls[0]);
        assert(runs_of(Seq::<Seq<u8>>::empty()) == Seq::<(Seq<u8>, nat)>::empty());
        assert(runs_of(ls.take(1)) =~~= seq![(rep@, 1nat)]);
    }
    while i < lines.len()
        invariant
            1 <= i <= lines@.len(),
            lines.deep_view() == ls,
            runs_of(ls.take(i as int)).len() > 0,
            runs_of(ls.take(i as int)).last() == (rep@, cnt as nat),
            out@ == rendered(runs_of(ls.take(i as int)).drop_last(), emit_counts),
            1 <= cnt <= i,
        decreases lines@.len() - i,
    {
        let ghost prev = runs_of(ls.take(i as int));
        let same = eq_trimmed(&lines[i], &rep);
        proof {
            assert(ls.take(i + 1).drop_last() =~= ls.take(i as int));
            assert(ls.take(i + 1).last() == ls[i as int]);
            assert(lines@[i as int].deep_view() == ls[i as int]);
            assert(lines@[i as int].deep_view() =~= lines@[i as int]@);
        }
        if same {
            cnt = cnt + 1;
            proof {
                let runs = runs_of(ls.take(i + 1));
                assert(runs == prev.update(prev.len() - 1, (rep@, cnt as nat)));
                assert(runs.drop_last() =~~= prev.drop_last());
                assert(runs.last() == (rep@, cnt as nat));
            }
        } else {
            flush_run(&mut out, &rep, cnt, emit_counts);
            let ghost flushed = out@;
            rep = clone_bytes(&lines[i]);
            cnt = 1;
            proof {
                let runs = runs_of(ls.take(i + 1));
                assert(runs == prev.push((ls[i as int], 1nat)));
                assert(runs.drop_last() =~~= prev);
                assert(rendered(prev, emit_counts) == rendered(prev.drop_last(), emit_counts)
                    + rendered_run(prev.last().0, prev.last().1, emit_counts));
                assert(flushed == rendered(runs.drop_last(), emit_counts));
                assert(runs.last() == (rep@, 1nat));
            }
        }
        i = i + 1;
    }
    proof {
        assert(ls.take(ls.len() as int) =~= ls);
    }
    flush_run(&mut out, &rep, cnt, emit_counts);
    proof {
        let runs = runs_of(ls);
        assert(out@ == rendered(runs.drop_last(), emit_counts) + rendered_run(
            runs.last().0,
            runs.last().1,
            emit_counts,
        ));
        assert(out@ == rendered(runs, emit_counts));
    }
    out
}

} // verus!
