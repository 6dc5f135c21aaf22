use vstd::prelude::*;
use crate::color::Color;
use crate::coord::coord_at;
use crate::figure::{Figure, figure_wf};
use crate::piece::Piece;

verus! {

/// The predicate that keeps every figure but `x`.
pub open spec fn other_than(x: Figure) -> spec_fn(Figure) -> bool {
    |y: Figure| y != x
}

/// The figures of `s` without `x`.
pub open spec fn set_remove(s: Seq<Figure>, x: Figure) -> Seq<Figure> {
    s.filter(other_than(x))
}

pub open spec fn color_num(c: Color) -> int {
    match c {
        Color::W => 0,
        Color::B => 1,
    }
}

pub open spec fn piece_num(p: Piece) -> int {
    match p {
        Piece::P => 0,
        Piece::R => 1,
        Piece::N => 2,
        Piece::B => 3,
        Piece::Q => 4,
        Piece::K => 5,
    }
}

/// The rank of a figure in the list of figures: by square, then side,
/// then kind.
pub open spec fn fig_key(f: Figure) -> int {
    f.coord.idx * 12 + color_num(f.color) * 6 + piece_num(f.piece)
}

/// Figures listed in strictly increasing order of `fig_key`.
pub open spec fn figs_sorted(s: Seq<Figure>) -> bool {
    forall|i: int, j: int| 0 <= i < j < s.len() ==> fig_key(s[i]) < fig_key(s[j])
}

/// `x` put into `s` before the first figure that does not rank below it.
pub open spec fn insert_sorted(s: Seq<Figure>, x: Figure) -> Seq<Figure>
    decreases s.len(),
{
    if s.len() == 0 {
        seq![x]
    } else if fig_key(x) <= fig_key(s[0]) {
        seq![x] + s
    } else {
        seq![s[0]] + insert_sorted(s.drop_first(), x)
    }
}

/// `s` with `x` put in its place by rank, unless it is already there.
pub open spec fn set_insert(s: Seq<Figure>, x: Figure) -> Seq<Figure> {
    if s.contains(x) {
        s
    } else {
        insert_sorted(s, x)
    }
}

/// The first figure of `s`, if any.
pub open spec fn first_of(s: Seq<Figure>) -> Option<Figure> {
    if s.len() > 0 {
        Some(s[0])
    } else {
        None
    }
}

/// Figures standing on well-formed squares, listed in rank order (so each
/// once).
pub open spec fn figs_wf(s: Seq<Figure>) -> bool {
    &&& forall|j: int| 0 <= j < s.len() ==> figure_wf(#[trigger] s[j])
    &&& figs_sorted(s)
}

/// Figures on well-formed squares of equal rank are equal.
pub proof fn lemma_key_injective(f: Figure, g: Figure)
    requires
        figure_wf(f),
        figure_wf(g),
        fig_key(f) == fig_key(g),
    ensures
        f == g,
{
    assert(f.coord.idx == g.coord.idx);
    assert(color_num(f.color) == color_num(g.color));
    assert(piece_num(f.piece) == piece_num(g.piece));
    assert(f.coord == coord_at(f.coord.idx as int));
}

pub proof fn lemma_sorted_no_dup(s: Seq<Figure>)
    requires
        figs_sorted(s),
    ensures
        s.no_duplicates(),
{
}

/// Where `insert_sorted` puts `x`: after the figures ranking below it.
pub proof fn lemma_insert_sorted_at(s: Seq<Figure>, x: Figure, i: int)
    requires
        0 <= i <= s.len(),
        forall|j: int| 0 <= j < i ==> fig_key(#[trigger] s[j]) < fig_key(x),
        i < s.len() ==> fig_key(x) <= fig_key(s[i]),
    ensures
        insert_sorted(s, x) == s.insert(i, x),
    decreases i,
{
    if i == 0 {
        assert(insert_sorted(s, x) =~= s.insert(0, x));
    } else {
        let t = s.drop_first();
        assert(fig_key(s[0]) < fig_key(x));
        assert forall|j: int| 0 <= j < i - 1 implies fig_key(#[trigger] t[j]) < fig_key(x) by {
            assert(t[j] == s[j + 1]);
        }
        if i - 1 < t.len() {
            assert(t[i - 1] == s[i]);
        }
        lemma_insert_sorted_at(t, x, i - 1);
        assert(insert_sorted(s, x) =~= s.insert(i, x));
    }
}

/// `insert_sorted` puts `x` at some index after the figures ranking below
/// it.
pub proof fn lemma_insert_sorted_shape(s: Seq<Figure>, x: Figure) -> (i: int)
    ensures
        0 <= i <= s.len(),
        forall|j: int| 0 <= j < i ==> fig_key(#[trigger] s[j]) < fig_key(x),
        i < s.len() ==> fig_key(x) <= fig_key(s[i]),
        insert_sorted(s, x) == s.insert(i, x),
    decreases s.len(),
{
    if s.len() == 0 || fig_key(x) <= fig_key(s[0]) {
        lemma_insert_sorted_at(s, x, 0);
        0
    } else {
        let t = s.drop_first();
        let i1 = lemma_insert_sorted_shape(t, x);
        let i = i1 + 1;
        assert forall|j: int| 0 <= j < i implies fig_key(#[trigger] s[j]) < fig_key(x) by {
            if j > 0 {
                assert(s[j] == t[j - 1]);
            }
        }
        if i < s.len() {
            assert(s[i] == t[i1]);
        }
        lemma_insert_sorted_at(s, x, i);
        i
    }
}

pub proof fn lemma_set_insert_contains(s: Seq<Figure>, x: Figure, f: Figure)
    ensures
        set_insert(s, x).contains(f) <==> (s.contains(f) || f == x),
{
    if !s.contains(x) {
        let i = lemma_insert_sorted_shape(s, x);
        let t = s.insert(i, x);
        s.insert_ensures(i, x);
        if t.contains(f) {
            let j = choose|j: int| 0 <= j < t.len() && t[j] == f;
            if j < i {
                assert(s[j] == f);
            } else if j > i {
                assert(t[(j - 1) + 1] == s[j - 1]);
            }
        }
        if s.contains(f) {
            let j = choose|j: int| 0 <= j < s.len() && s[j] == f;
            if j < i {
                assert(t[j] == f);
            } else {
                assert(t[j + 1] == f);
            }
        }
        if f == x {
            assert(t[i] == f);
        }
    }
}

pub proof fn lemma_filter_step<A>(s: Seq<A>, p: spec_fn(A) -> bool, i: int)
    requires
        0 <= i < s.len(),
    ensures
        s.take(i + 1).filter(p) == (if p(s[i]) {
            s.take(i).filter(p).push(s[i])
        } else {
            s.take(i).filter(p)
        }),
{
    reveal_with_fuel(Seq::<_>::filter, 1);
    assert(s.take(i + 1).drop_last() =~= s.take(i));
}

pub proof fn lemma_filter_subset<A>(s: Seq<A>, p: spec_fn(A) -> bool)
    ensures
        forall|k: int| 0 <= k < s.filter(p).len() ==> s.contains(#[trigger] s.filter(p)[k]),
        forall|k: int| 0 <= k < s.filter(p).len() ==> p(#[trigger] s.filter(p)[k]),
{
    assert forall|k: int| 0 <= k < s.filter(p).len() implies s.contains(#[trigger] s.filter(p)[k]) by {
        assert(s.filter(p).contains(s.filter(p)[k]));
        s.lemma_filter_contains_rev(p, s.filter(p)[k]);
    }
    assert forall|k: int| 0 <= k < s.filter(p).len() implies p(#[trigger] s.filter(p)[k]) by {
        s.lemma_filter_pred(p, k);
    }
}

pub proof fn lemma_filter_sorted(s: Seq<Figure>, p: spec_fn(Figure) -> bool)
    requires
        figs_sorted(s),
    ensures
        figs_sorted(s.filter(p)),
    decreases s.len(),
{
    reveal_with_fuel(Seq::<_>::filter, 1);
    if s.len() > 0 {
        let rest = s.drop_last();
        lemma_filter_sorted(rest, p);
        let sub = rest.filter(p);
        if p(s.last()) {
            lemma_filter_subset(rest, p);
            let t = sub.push(s.last());
            assert(s.filter(p) == t);
            assert forall|a: int, b: int| 0 <= a < b < t.len() implies fig_key(t[a]) < fig_key(
                t[b],
            ) by {
                if b == sub.len() {
                    assert(rest.contains(sub[a]));
                    let j = choose|j: int| 0 <= j < rest.len() && rest[j] == sub[a];
                    assert(s[j] == rest[j]);
                } else {
                    assert(t[a] == sub[a] && t[b] == sub[b]);
                }
            }
        }
    }
}

pub proof fn lemma_filter_figs_wf(s: Seq<Figure>, p: spec_fn(Figure) -> bool)
    requires
        figs_wf(s),
    ensures
        figs_wf(s.filter(p)),
{
    lemma_filter_subset(s, p);
    lemma_filter_sorted(s, p);
    assert forall|j: int| 0 <= j < s.filter(p).len() implies figure_wf(#[trigger] s.filter(p)[j]) by {
        assert(s.contains(s.filter(p)[j]));
    }
}

pub proof fn lemma_set_insert_wf(s: Seq<Figure>, x: Figure)
    requires
        figs_wf(s),
        figure_wf(x),
    ensures
        figs_wf(set_insert(s, x)),
{
    if !s.contains(x) {
        let i = lemma_insert_sorted_shape(s, x);
        let t = s.insert(i, x);
        s.insert_ensures(i, x);
        if i < s.len() {
            if fig_key(x) == fig_key(s[i]) {
                lemma_key_injective(x, s[i]);
                assert(s.contains(s[i]));
            }
        }
        assert forall|j: int| 0 <= j < t.len() implies figure_wf(#[trigger] t[j]) by {
            if j < i {
                assert(t[j] == s[j]);
            } else if j > i {
                assert(t[(j - 1) + 1] == s[j - 1]);
            }
        }
        assert forall|a: int, b: int| 0 <= a < b < t.len() implies fig_key(t[a]) < fig_key(t[b]) by {
            if a < i {
                assert(t[a] == s[a]);
            } else if a > i {
                assert(t[(a - 1) + 1] == s[a - 1]);
            }
            if b < i {
                assert(t[b] == s[b]);
            } else if b > i {
                assert(t[(b - 1) + 1] == s[b - 1]);
                if a == i && b - 1 > i {
                    assert(fig_key(s[i]) < fig_key(s[b - 1]));
                }
            }
        }
    }
}

/// Keeps the figures of `v` for which `pred` holds, in order.
pub fn filter_figs<F: Fn(&Figure) -> bool>(
    v: &Vec<Figure>,
    pred: F,
    Ghost(p): Ghost<spec_fn(Figure) -> bool>,
) -> (r: Vec<Figure>)
    requires
        forall|k: int| 0 <= k < v@.len() ==> pred.requires((&v@[k],)),
        forall|f: Figure, b: bool| pred.ensures((&f,), b) ==> b == p(f),
    ensures
        r@ == v@.filter(p),
{
    let mut r: Vec<Figure> = Vec::new();
    let mut i: usize = 0;
    while i < v.len()
        invariant
            i <= v.len(),
            forall|k: int| 0 <= k < v@.len() ==> pred.requires((&v@[k],)),
            forall|f: Figure, b: bool| pred.ensures((&f,), b) ==> b == p(f),
            r@ == v@.take(i as int).filter(p),
        decreases v.len() - i,
    {
        proof {
            lemma_filter_step(v@, p, i as int);
        }
        let f = &v[i];
        if pred(f) {
            r.push(*f);
        }
        i = i + 1;
    }
    assert(v@.take(v.len() as int) =~= v@);
    r
}

/// Whether `v` holds `x`.
pub fn contains_fig(v: &Vec<Figure>, x: &Figure) -> (b: bool)
    ensures
        b == v@.contains(*x),
{
    let mut i: usize = 0;
    while i < v.len()
        invariant
            i <= v.len(),
            forall|j: int| 0 <= j < i ==> v@[j] != *x,
        decreases v.len() - i,
    {
        if v[i] == *x {
            return true;
        }
        i = i + 1;
    }
    false
}

/// `v` without `x`.
pub fn remove_fig(v: &Vec<Figure>, x: &Figure) -> (r: Vec<Figure>)
    ensures
        r@ == set_remove(v@, *x),
{
    let x = *x;
    let keep = |f: &Figure| -> (b: bool)
        ensures
            b == other_than(x)(*f),
        { *f != x };
    filter_figs(v, keep, Ghost(other_than(x)))
}

/// The rank of a figure in the list of figures.
fn fig_key_of(f: &Figure) -> (k: i32)
    ensures
        k == fig_key(*f),
{
    let c: i32 = match f.color {
        Color::W => 0,
        Color::B => 1,
    };
    let p: i32 = match f.piece {
        Piece::P => 0,
        Piece::R => 1,
        Piece::N => 2,
        Piece::B => 3,
        Piece::Q => 4,
        Piece::K => 5,
    };
    (f.coord.idx as i32) * 12 + c * 6 + p
}

/// Puts `x` into `v` in its place by rank, unless it is already there.
pub fn insert_fig(v: &mut Vec<Figure>, x: Figure)
    ensures
        final(v)@ == set_insert(old(v)@, x),
{
    if !contains_fig(v, &x) {
        let kx = fig_key_of(&x);
        let mut i: usize = 0;
        while i < v.len() && fig_key_of(&v[i]) < kx
            invariant
                i <= v.len(),
                kx == fig_key(x),
                v@ == old(v)@,
                forall|j: int| 0 <= j < i ==> fig_key(#[trigger] v@[j]) < fig_key(x),
            decreases v.len() - i,
        {
            i = i + 1;
        }
        proof {
            lemma_insert_sorted_at(v@, x, i as int);
        }
        v.insert(i, x);
    }
}

/// Copies a vector element by element.
pub fn copy_vec<T: Copy>(v: &Vec<T>) -> (r: Vec<T>)
    ensures
        r@ == v@,
{
    let mut r: Vec<T> = Vec::new();
    let mut i: usize = 0;
    while i < v.len()
        invariant
            i <= v.len(),
            r@ == v@.take(i as int),
        decreases v.len() - i,
    {
        r.push(v[i]);
        i = i + 1;
        assert(r@ =~= v@.take(i as int));
    }
    assert(r@ =~= v@);
    r
}

} // verus!
