//! A pass specification selects a pass exactly where one of its
//! comma-separated pieces is the pass's name.
use crate::bfir::Node;
use crate::peephole::{chosen_passes, optimize_once_spec, pass_seq, pass_set_of, split_commas, Pass};
use vstd::prelude::*;

verus! {

/// `s[i..j]` is one of the pieces of `s` between commas: it starts at the
/// start or right after a comma, ends at the end or right before a comma,
/// and holds no comma.
pub open spec fn piece_at(s: Seq<char>, i: int, j: int) -> bool {
    &&& 0 <= i <= j <= s.len()
    &&& (i == 0 || s[i - 1] == ',')
    &&& (j == s.len() || s[j] == ',')
    &&& no_comma(s, i, j)
}

/// `s[i..j]` holds no comma.
#[verifier::opaque]
pub open spec fn no_comma(s: Seq<char>, i: int, j: int) -> bool {
    forall|k: int| i <= k < j ==> s[k] != ','
}

proof fn lemma_no_comma_prefix(s: Seq<char>, i: int, j: int)
    requires
        s.len() > 0,
        0 <= i,
        j < s.len(),
    ensures
        no_comma(s, i, j) == no_comma(s.drop_last(), i, j),
{
    reveal(no_comma);
    let t = s.drop_last();
    assert forall|k: int| i <= k < j implies s[k] == t[k] by {}
}

proof fn lemma_no_comma_last(s: Seq<char>, i: int)
    requires
        s.len() > 0,
        0 <= i < s.len(),
    ensures
        no_comma(s, i, s.len() as int) == (no_comma(s.drop_last(), i, s.len() - 1) && s.last() != ','),
{
    reveal(no_comma);
    let t = s.drop_last();
    assert forall|k: int| i <= k < s.len() - 1 implies s[k] == t[k] by {}
    if no_comma(t, i, s.len() - 1) && s.last() != ',' {
        assert forall|k: int| i <= k < s.len() implies s[k] != ',' by {
            if k < s.len() - 1 {
                assert(s[k] == t[k]);
            }
        }
    }
}

proof fn lemma_no_comma_empty(s: Seq<char>, i: int)
    ensures
        no_comma(s, i, i),
{
    reveal(no_comma);
}

/// `w` is one of the pieces of `s` between commas.
pub open spec fn is_piece(s: Seq<char>, w: Seq<char>) -> bool {
    exists|i: int, j: int| piece_at(s, i, j) && s.subrange(i, j) == w
}

/// `w` is a piece of `s` that ends right before a comma.
pub open spec fn early_piece(s: Seq<char>, w: Seq<char>) -> bool {
    exists|i: int, j: int| j < s.len() && piece_at(s, i, j) && s.subrange(i, j) == w
}

/// `w` is the piece of `s` that ends at its end.
pub open spec fn last_piece(s: Seq<char>, w: Seq<char>) -> bool {
    exists|i: int| piece_at(s, i, s.len() as int) && s.subrange(i, s.len() as int) == w
}

/// What `split_commas` gives, piece by piece: every piece but the last
/// ends at a comma, the last ends at the end, and every piece between
/// commas is one of them, in the same place.
#[verifier::opaque]
pub open spec fn split_ok(s: Seq<char>) -> bool {
    let p = split_commas(s);
    &&& p.len() > 0
    &&& forall|k: int| 0 <= k < p.len() - 1 ==> early_piece(s, #[trigger] p[k])
    &&& last_piece(s, p.last())
    &&& forall|i: int, j: int| #[trigger] piece_at(s, i, j) && j < s.len() ==> p.drop_last().contains(s.subrange(i, j))
    &&& forall|i: int| #[trigger] piece_at(s, i, s.len() as int) ==> p.last() == s.subrange(i, s.len() as int)
}

proof fn lemma_split_empty(s: Seq<char>)
    requires
        s.len() == 0,
    ensures
        split_ok(s),
{
    reveal(split_ok);
    let p = split_commas(s);
    assert(p == seq![Seq::<char>::empty()]);
    lemma_no_comma_empty(s, 0);
    assert(piece_at(s, 0, 0));
    assert(s.subrange(0, 0) =~= Seq::<char>::empty());
    assert(last_piece(s, p.last()));
    assert forall|i: int| #[trigger] piece_at(s, i, s.len() as int) implies p.last() == s.subrange(i, s.len() as int) by {
        assert(s.subrange(i, 0) =~= Seq::<char>::empty());
    }
}

proof fn lemma_split_comma(s: Seq<char>)
    requires
        s.len() > 0,
        s.last() == ',',
        split_ok(s.drop_last()),
    ensures
        split_ok(s),
{
    reveal(split_ok);
    let p = split_commas(s);
    let t = s.drop_last();
    let q = split_commas(t);
    let lt = q.len() - 1;
    let n = s.len() as int;
    assert(p == q.push(Seq::<char>::empty()));
    assert forall|k: int| 0 <= k < p.len() - 1 implies early_piece(s, #[trigger] p[k]) by {
        assert(p[k] == q[k]);
        if k < lt {
            assert(early_piece(t, q[k]));
            let (i, j) = choose|i: int, j: int| j < t.len() && piece_at(t, i, j) && t.subrange(i, j) == q[k];
            assert(s.subrange(i, j) =~= t.subrange(i, j));
            lemma_no_comma_prefix(s, i, j);
            assert(j < s.len() && piece_at(s, i, j) && s.subrange(i, j) == p[k]);
        } else {
            assert(last_piece(t, q.last()));
            let i0 = choose|i: int| piece_at(t, i, t.len() as int) && t.subrange(i, t.len() as int) == q.last();
            let j0 = t.len() as int;
            assert(s.subrange(i0, j0) =~= t.subrange(i0, j0));
            lemma_no_comma_prefix(s, i0, j0);
            assert(j0 < s.len() && piece_at(s, i0, j0) && s.subrange(i0, j0) == p[k]);
        }
    }
    lemma_no_comma_empty(s, n);
    assert(piece_at(s, n, n));
    assert(s.subrange(n, n) =~= Seq::<char>::empty());
    assert(last_piece(s, p.last()));
    assert(p.drop_last() =~= q);
    assert forall|i: int, j: int| #[trigger] piece_at(s, i, j) && j < s.len() implies p.drop_last().contains(s.subrange(i, j)) by {
        assert(s.subrange(i, j) =~= t.subrange(i, j));
        lemma_no_comma_prefix(s, i, j);
        assert(piece_at(t, i, j));
        if j < t.len() {
            assert(q.drop_last().contains(t.subrange(i, j)));
            let k = choose|k: int| 0 <= k < q.drop_last().len() && q.drop_last()[k] == t.subrange(i, j);
            assert(q[k] == t.subrange(i, j));
        } else {
            assert(q[lt] == t.subrange(i, j));
        }
    }
    assert forall|i: int| #[trigger] piece_at(s, i, s.len() as int) implies p.last() == s.subrange(i, s.len() as int) by {
        if i < n {
            lemma_no_comma_last(s, i);
        }
        assert(s.subrange(i, n) =~= Seq::<char>::empty());
    }
}

proof fn lemma_split_other(s: Seq<char>)
    requires
        s.len() > 0,
        s.last() != ',',
        split_ok(s.drop_last()),
    ensures
        split_ok(s),
{
    reveal(split_ok);
    let p = split_commas(s);
    let t = s.drop_last();
    let c = s.last();
    let q = split_commas(t);
    let lt = q.len() - 1;
    let n = s.len() as int;
    assert(p == q.update(lt, q.last().push(c)));
    assert forall|k: int| 0 <= k < p.len() - 1 implies early_piece(s, #[trigger] p[k]) by {
        assert(p[k] == q[k]);
        assert(early_piece(t, q[k]));
        let (i, j) = choose|i: int, j: int| j < t.len() && piece_at(t, i, j) && t.subrange(i, j) == q[k];
        assert(s.subrange(i, j) =~= t.subrange(i, j));
        lemma_no_comma_prefix(s, i, j);
        assert(j < s.len() && piece_at(s, i, j) && s.subrange(i, j) == p[k]);
    }
    assert(last_piece(t, q.last()));
    let i0 = choose|i: int| piece_at(t, i, t.len() as int) && t.subrange(i, t.len() as int) == q.last();
    lemma_no_comma_last(s, i0);
    assert(piece_at(s, i0, n));
    assert(s.subrange(i0, n) =~= t.subrange(i0, t.len() as int).push(c));
    assert(last_piece(s, p.last()));
    assert(p.drop_last() =~= q.drop_last());
    assert forall|i: int, j: int| #[trigger] piece_at(s, i, j) && j < s.len() implies p.drop_last().contains(s.subrange(i, j)) by {
        assert(j < t.len());
        assert(s.subrange(i, j) =~= t.subrange(i, j));
        lemma_no_comma_prefix(s, i, j);
        assert(piece_at(t, i, j));
    }
    assert forall|i: int| #[trigger] piece_at(s, i, s.len() as int) implies p.last() == s.subrange(i, s.len() as int) by {
        if i < n {
            lemma_no_comma_last(s, i);
        }
        assert(piece_at(t, i, t.len() as int));
        assert(s.subrange(i, n) =~= t.subrange(i, t.len() as int).push(c));
    }
}

proof fn lemma_split_pieces(s: Seq<char>)
    ensures
        split_ok(s),
    decreases s.len(),
{
    if s.len() == 0 {
        lemma_split_empty(s);
    } else {
        lemma_split_pieces(s.drop_last());
        if s.last() == ',' {
            lemma_split_comma(s);
        } else {
            lemma_split_other(s);
        }
    }
}

/// The pieces that `str::split(',')` gives are exactly the pieces of `s`
/// between commas.
pub proof fn lemma_split_is_pieces(s: Seq<char>, w: Seq<char>)
    ensures
        split_commas(s).contains(w) <==> is_piece(s, w),
{
    lemma_split_pieces(s);
    reveal(split_ok);
    let p = split_commas(s);
    if p.contains(w) {
        let k = choose|k: int| 0 <= k < p.len() && p[k] == w;
        if k < p.len() - 1 {
            assert(early_piece(s, p[k]));
            let (i, j) = choose|i: int, j: int| j < s.len() && piece_at(s, i, j) && s.subrange(i, j) == p[k];
            assert(piece_at(s, i, j) && s.subrange(i, j) == w);
        } else {
            assert(last_piece(s, p.last()));
            let i = choose|i: int| piece_at(s, i, s.len() as int) && s.subrange(i, s.len() as int) == p.last();
            assert(piece_at(s, i, s.len() as int) && s.subrange(i, s.len() as int) == w);
        }
    }
    if is_piece(s, w) {
        let (i, j) = choose|i: int, j: int| piece_at(s, i, j) && s.subrange(i, j) == w;
        if j < s.len() {
            assert(p.drop_last().contains(s.subrange(i, j)));
            let k = choose|k: int| 0 <= k < p.drop_last().len() && p.drop_last()[k] == s.subrange(i, j);
            assert(p[k] == w);
        } else {
            assert(p[p.len() - 1] == w);
        }
    }
}

/// A pass specification selects each pass exactly where one of its pieces
/// between commas is that pass's name.
pub proof fn law_pass_names(spec: Seq<char>)
    ensures
        pass_set_of(spec).combine_inc == is_piece(spec, "combine_inc"@),
        pass_set_of(spec).combine_ptr == is_piece(spec, "combine_ptr"@),
        pass_set_of(spec).known_zero == is_piece(spec, "known_zero"@),
        pass_set_of(spec).multiply == is_piece(spec, "multiply"@),
        pass_set_of(spec).zeroing_loop == is_piece(spec, "zeroing_loop"@),
        pass_set_of(spec).combine_set == is_piece(spec, "combine_set"@),
        pass_set_of(spec).dead_loop == is_piece(spec, "dead_loop"@),
        pass_set_of(spec).redundant_set == is_piece(spec, "redundant_set"@),
        pass_set_of(spec).read_clobber == is_piece(spec, "read_clobber"@),
        pass_set_of(spec).pure_removal == is_piece(spec, "pure_removal"@),
        pass_set_of(spec).offset_sort == is_piece(spec, "offset_sort"@),
{
    lemma_split_is_pieces(spec, "combine_inc"@);
    lemma_split_is_pieces(spec, "combine_ptr"@);
    lemma_split_is_pieces(spec, "known_zero"@);
    lemma_split_is_pieces(spec, "multiply"@);
    lemma_split_is_pieces(spec, "zeroing_loop"@);
    lemma_split_is_pieces(spec, "combine_set"@);
    lemma_split_is_pieces(spec, "dead_loop"@);
    lemma_split_is_pieces(spec, "redundant_set"@);
    lemma_split_is_pieces(spec, "read_clobber"@);
    lemma_split_is_pieces(spec, "pure_removal"@);
    lemma_split_is_pieces(spec, "offset_sort"@);
}

/// With no specification every pass runs.
pub proof fn law_no_specification_runs_every_pass()
    ensures
        ({
            let p = chosen_passes(None);
            p.combine_inc && p.combine_ptr && p.known_zero && p.multiply && p.zeroing_loop && p.combine_set && p.dead_loop
                && p.redundant_set && p.read_clobber && p.pure_removal && p.offset_sort
        }),
{
}

/// A specification whose only pass name is `zeroing_loop` runs the
/// zeroing-loop pass and nothing else, whatever else its pieces say.
pub proof fn law_zeroing_loop_alone(spec: Seq<char>, s: Seq<Node>)
    requires
        is_piece(spec, "zeroing_loop"@),
        !is_piece(spec, "combine_inc"@),
        !is_piece(spec, "combine_ptr"@),
        !is_piece(spec, "known_zero"@),
        !is_piece(spec, "multiply"@),
        !is_piece(spec, "combine_set"@),
        !is_piece(spec, "dead_loop"@),
        !is_piece(spec, "redundant_set"@),
        !is_piece(spec, "read_clobber"@),
        !is_piece(spec, "pure_removal"@),
        !is_piece(spec, "offset_sort"@),
    ensures
        optimize_once_spec(s, pass_set_of(spec)) == (pass_seq(Pass::ZeroingLoops, s), None::<Option<crate::bfir::Position>>),
{
    law_pass_names(spec);
}

/// The empty specification names no pass.
pub proof fn law_empty_specification_runs_nothing(s: Seq<Node>)
    ensures
        optimize_once_spec(s, pass_set_of(Seq::<char>::empty())) == (s, None::<Option<crate::bfir::Position>>),
{
    let e = Seq::<char>::empty();
    law_pass_names(e);
    assert forall|w: Seq<char>| w.len() > 0 implies !is_piece(e, w) by {
        if is_piece(e, w) {
            let (i, j) = choose|i: int, j: int| piece_at(e, i, j) && e.subrange(i, j) == w;
            assert(e.subrange(i, j).len() == 0);
        }
    }
    reveal_strlit("combine_inc");
    reveal_strlit("combine_ptr");
    reveal_strlit("known_zero");
    reveal_strlit("multiply");
    reveal_strlit("zeroing_loop");
    reveal_strlit("combine_set");
    reveal_strlit("dead_loop");
    reveal_strlit("redundant_set");
    reveal_strlit("read_clobber");
    reveal_strlit("pure_removal");
    reveal_strlit("offset_sort");
}

} // verus!
