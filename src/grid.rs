use vstd::prelude::*;

verus! {

/// A grid position `(x, y)` as the mathematical model sees it.
pub type Pos = (int, int);

/// The mathematical contents of a column-major grid of flags, indexed `[x][y]`.
pub open spec fn grid_view(g: Seq<Vec<bool>>) -> Seq<Seq<bool>> {
    g.map_values(|r: Vec<bool>| r@)
}

/// `g` has `w` columns of `h` flags each.
pub open spec fn is_grid(g: Seq<Seq<bool>>, w: int, h: int) -> bool {
    &&& g.len() == w
    &&& forall|x: int| 0 <= x < w ==> #[trigger] g[x].len() == h
}

/// `g` with the flag at `p` replaced by `v`.
pub open spec fn set2(g: Seq<Seq<bool>>, p: Pos, v: bool) -> Seq<Seq<bool>> {
    g.update(p.0, g[p.0].update(p.1, v))
}

/// Number of entries of `s` equal to `v`.
pub open spec fn count_val(s: Seq<bool>, v: bool) -> nat
    decreases s.len(),
{
    if s.len() == 0 {
        0
    } else {
        count_val(s.drop_last(), v) + if s.last() == v {
            1nat
        } else {
            0nat
        }
    }
}

/// Number of flags of the whole grid equal to `v`.
pub open spec fn grid_count(g: Seq<Seq<bool>>, v: bool) -> nat
    decreases g.len(),
{
    if g.len() == 0 {
        0
    } else {
        grid_count(g.drop_last(), v) + count_val(g.last(), v)
    }
}

pub proof fn lemma_count_update(s: Seq<bool>, i: int, w: bool, v: bool)
    requires
        0 <= i < s.len(),
    ensures
        count_val(s.update(i, w), v) + (if s[i] == v { 1int } else { 0int }) == count_val(s, v) + (
        if w == v {
            1int
        } else {
            0int
        }),
    decreases s.len(),
{
    let t = s.update(i, w);
    if i < s.len() - 1 {
        assert(t.drop_last() =~= s.drop_last().update(i, w));
        lemma_count_update(s.drop_last(), i, w, v);
    } else {
        assert(t.drop_last() =~= s.drop_last());
    }
}

pub proof fn lemma_grid_count_update(g: Seq<Seq<bool>>, p: Pos, w: bool, v: bool)
    requires
        0 <= p.0 < g.len(),
        0 <= p.1 < g[p.0].len(),
    ensures
        grid_count(set2(g, p, w), v) + (if g[p.0][p.1] == v { 1int } else { 0int })
            == grid_count(g, v) + (if w == v { 1int } else { 0int }),
    decreases g.len(),
{
    let t = set2(g, p, w);
    lemma_count_update(g[p.0], p.1, w, v);
    if p.0 < g.len() - 1 {
        assert(t.drop_last() =~= set2(g.drop_last(), p, w));
        lemma_grid_count_update(g.drop_last(), p, w, v);
    } else {
        assert(t.drop_last() =~= g.drop_last());
    }
}

pub proof fn lemma_count_all(s: Seq<bool>, v: bool)
    requires
        forall|i: int| 0 <= i < s.len() ==> s[i] == v,
    ensures
        count_val(s, v) == s.len(),
    decreases s.len(),
{
    if s.len() > 0 {
        lemma_count_all(s.drop_last(), v);
    }
}

pub proof fn lemma_grid_count_all(g: Seq<Seq<bool>>, h: int, v: bool)
    requires
        h >= 0,
        is_grid(g, g.len() as int, h),
        forall|x: int, y: int| 0 <= x < g.len() && 0 <= y < h ==> #[trigger] g[x][y] == v,
    ensures
        grid_count(g, v) == g.len() * h,
    decreases g.len(),
{
    if g.len() > 0 {
        let n = g.len() - 1;
        assert(is_grid(g.drop_last(), n as int, h));
        lemma_grid_count_all(g.drop_last(), h, v);
        assert forall|i: int| 0 <= i < g.last().len() implies g.last()[i] == v by {
            assert(g[n as int][i] == v);
        }
        lemma_count_all(g.last(), v);
        assert(n * h + h == (n + 1) * h) by (nonlinear_arith);
    }
}

pub proof fn lemma_grid_count_none(g: Seq<Seq<bool>>, v: bool)
    requires
        forall|x: int, y: int| 0 <= x < g.len() && 0 <= y < g[x].len() ==> #[trigger] g[x][y] != v,
    ensures
        grid_count(g, v) == 0,
    decreases g.len(),
{
    if g.len() > 0 {
        lemma_grid_count_none(g.drop_last(), v);
        lemma_count_none(g.last(), v);
    }
}

pub proof fn lemma_count_none(s: Seq<bool>, v: bool)
    requires
        forall|i: int| 0 <= i < s.len() ==> s[i] != v,
    ensures
        count_val(s, v) == 0,
    decreases s.len(),
{
    if s.len() > 0 {
        lemma_count_none(s.drop_last(), v);
    }
}

/// Sets one flag of a column-major grid in place.
pub fn set_flag(g: &mut Vec<Vec<bool>>, x: usize, y: usize, v: bool)
    requires
        x < old(g)@.len(),
        y < old(g)@[x as int]@.len(),
    ensures
        grid_view(final(g)@) == set2(grid_view(old(g)@), (x as int, y as int), v),
{
    g[x].set(y, v);
    assert(grid_view(g@) =~= set2(grid_view(old(g)@), (x as int, y as int), v));
}

/// A `w` by `h` grid with every flag equal to `v`.
pub fn filled_grid(w: usize, h: usize, v: bool) -> (g: Vec<Vec<bool>>)
    ensures
        grid_view(g@) =~~= Seq::new(w as nat, |x: int| Seq::new(h as nat, |y: int| v)),
{
    let mut g: Vec<Vec<bool>> = Vec::new();
    let mut i: usize = 0;
    while i < w
        invariant
            i <= w,
            g@.len() == i,
            forall|x: int| 0 <= x < i ==> #[trigger] g@[x]@ == Seq::new(h as nat, |k: int| v),
        decreases w - i,
    {
        let mut col: Vec<bool> = Vec::new();
        let mut j: usize = 0;
        while j < h
            invariant
                j <= h,
                col@ == Seq::new(j as nat, |k: int| v),
            decreases h - j,
        {
            col.push(v);
            j = j + 1;
            assert(col@ =~= Seq::new(j as nat, |k: int| v));
        }
        g.push(col);
        i = i + 1;
    }
    assert(grid_view(g@) =~~= Seq::new(w as nat, |x: int| Seq::new(h as nat, |y: int| v)));
    g
}

/// Reads one flag of a column-major grid.
pub fn get_flag(g: &Vec<Vec<bool>>, x: usize, y: usize) -> (r: bool)
    requires
        x < g@.len(),
        y < grid_view(g@)[x as int].len(),
    ensures
        r == grid_view(g@)[x as int][y as int],
{
    g[x][y]
}

} // verus!
