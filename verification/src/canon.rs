//! The specification of shape canonicalization: the total order on cells, the
//! canonical-form invariant, the translation relation between cell lists, and
//! a mathematical normalization function together with its uniqueness lemmas.

use vstd::prelude::*;

use crate::coord::Coord;

verus! {

/// The fixed total order on cells: by x first, then by y.
pub open spec fn coord_lt(a: Coord, b: Coord) -> bool {
    a.x < b.x || (a.x == b.x && a.y < b.y)
}

/// The cells appear in strictly increasing order, so the list is sorted and
/// free of duplicates.
pub open spec fn strictly_sorted(s: Seq<Coord>) -> bool {
    forall|i: int, j: int|
        #![trigger s[i], s[j]]
        0 <= i < j < s.len() ==> coord_lt(s[i], s[j])
}

/// Cell `a` is cell `b` moved by the displacement `(dx, dy)`.
pub open spec fn cell_shifted(a: Coord, b: Coord, dx: int, dy: int) -> bool {
    a.x == b.x + dx && a.y == b.y + dy
}

/// Whether the cell list `s` holds a cell at the position `(x, y)`.
pub open spec fn has_cell(s: Seq<Coord>, x: int, y: int) -> bool {
    exists|i: int| 0 <= i < s.len() && (#[trigger] s[i]).x == x && s[i].y == y
}

/// `a` holds exactly the cells of `b`, each moved by the displacement
/// `(dx, dy)`; order and multiplicity are not constrained.
pub open spec fn is_shift_of(a: Seq<Coord>, b: Seq<Coord>, dx: int, dy: int) -> bool {
    forall|x: int, y: int| #![trigger has_cell(b, x, y)]
        has_cell(a, x + dx, y + dy) <==> has_cell(b, x, y)
}

/// The canonical-form invariant: strictly sorted, every coordinate
/// nonnegative, and (for a nonempty list) both minima attained at zero.
pub open spec fn is_normal(s: Seq<Coord>) -> bool {
    &&& strictly_sorted(s)
    &&& forall|i: int| 0 <= i < s.len() ==> (#[trigger] s[i]).x >= 0 && s[i].y >= 0
    &&& s.len() > 0 ==> (exists|i: int| 0 <= i < s.len() && (#[trigger] s[i]).x == 0)
        && (exists|i: int| 0 <= i < s.len() && (#[trigger] s[i]).y == 0)
}

/// `s` is the canonical representative of the cell list `l`: it satisfies the
/// canonical-form invariant and holds the cells of `l` under some uniform
/// translation.
pub open spec fn is_normalization_of(s: Seq<Coord>, l: Seq<Coord>) -> bool {
    &&& is_normal(s)
    &&& exists|dx: int, dy: int| is_shift_of(s, l, dx, dy)
}

/// Every pairwise difference of coordinates fits in `isize`, so translating
/// the cells until their minima reach zero cannot overflow.
pub open spec fn spans_fit(l: Seq<Coord>) -> bool {
    forall|i: int, j: int|
        #![trigger l[i], l[j]]
        0 <= i < l.len() && 0 <= j < l.len() ==> l[i].x - l[j].x <= isize::MAX
            && l[i].y - l[j].y <= isize::MAX
}

/// The least x-coordinate of a nonempty cell list.
#[verifier::opaque]
pub open spec fn seq_min_x(l: Seq<Coord>) -> int
    decreases l.len(),
{
    if l.len() <= 1 {
        l[0].x as int
    } else {
        let m = seq_min_x(l.drop_last());
        if l.last().x < m {
            l.last().x as int
        } else {
            m
        }
    }
}

/// The least y-coordinate of a nonempty cell list.
#[verifier::opaque]
pub open spec fn seq_min_y(l: Seq<Coord>) -> int
    decreases l.len(),
{
    if l.len() <= 1 {
        l[0].y as int
    } else {
        let m = seq_min_y(l.drop_last());
        if l.last().y < m {
            l.last().y as int
        } else {
            m
        }
    }
}

/// The least x-coordinate is a lower bound and is attained.
pub proof fn lemma_seq_min_x(l: Seq<Coord>)
    requires
        l.len() > 0,
    ensures
        forall|i: int| 0 <= i < l.len() ==> seq_min_x(l) <= (#[trigger] l[i]).x,
        exists|i: int| 0 <= i < l.len() && (#[trigger] l[i]).x == seq_min_x(l),
    decreases l.len(),
{
    reveal_with_fuel(seq_min_x, 2);
    if l.len() > 1 {
        lemma_seq_min_x(l.drop_last());
        assert(forall|i: int| 0 <= i < l.len() - 1 ==> (#[trigger] l[i]).x == l.drop_last()[i].x);
        if l.last().x < seq_min_x(l.drop_last()) {
            assert(l[l.len() - 1].x == seq_min_x(l));
        } else {
            let i = choose|i: int|
                0 <= i < l.drop_last().len() && (#[trigger] l.drop_last()[i]).x == seq_min_x(
                    l.drop_last(),
                );
            assert(l[i].x == seq_min_x(l));
        }
    } else {
        assert(l[0].x == seq_min_x(l));
    }
}

/// The least y-coordinate is a lower bound and is attained.
pub proof fn lemma_seq_min_y(l: Seq<Coord>)
    requires
        l.len() > 0,
    ensures
        forall|i: int| 0 <= i < l.len() ==> seq_min_y(l) <= (#[trigger] l[i]).y,
        exists|i: int| 0 <= i < l.len() && (#[trigger] l[i]).y == seq_min_y(l),
    decreases l.len(),
{
    reveal_with_fuel(seq_min_y, 2);
    if l.len() > 1 {
        lemma_seq_min_y(l.drop_last());
        assert(forall|i: int| 0 <= i < l.len() - 1 ==> (#[trigger] l[i]).y == l.drop_last()[i].y);
        if l.last().y < seq_min_y(l.drop_last()) {
            assert(l[l.len() - 1].y == seq_min_y(l));
        } else {
            let i = choose|i: int|
                0 <= i < l.drop_last().len() && (#[trigger] l.drop_last()[i]).y == seq_min_y(
                    l.drop_last(),
                );
            assert(l[i].y == seq_min_y(l));
        }
    } else {
        assert(l[0].y == seq_min_y(l));
    }
}

/// Inserts `c` into the sorted list `s`, keeping it sorted and dropping `c`
/// if it is already present.
#[verifier::opaque]
pub open spec fn insert_sorted(c: Coord, s: Seq<Coord>) -> Seq<Coord>
    decreases s.len(),
{
    if s.len() == 0 {
        seq![c]
    } else if coord_lt(c, s[0]) {
        seq![c] + s
    } else if c == s[0] {
        s
    } else {
        seq![s[0]] + insert_sorted(c, s.drop_first())
    }
}

/// Sorts a cell list by the fixed order and removes exact duplicates.
#[verifier::opaque]
pub open spec fn sort_dedup(l: Seq<Coord>) -> Seq<Coord>
    decreases l.len(),
{
    if l.len() == 0 {
        Seq::empty()
    } else {
        insert_sorted(l.last(), sort_dedup(l.drop_last()))
    }
}

/// Inserting into a sorted list keeps it sorted and adds exactly the new cell
/// to its members.
pub proof fn lemma_insert_sorted(c: Coord, s: Seq<Coord>)
    requires
        strictly_sorted(s),
    ensures
        strictly_sorted(insert_sorted(c, s)),
        forall|d: Coord|
            #![trigger insert_sorted(c, s).contains(d)]
            #![trigger s.contains(d)]
            insert_sorted(c, s).contains(d) <==> s.contains(d) || d == c,
    decreases s.len(),
{
    reveal_with_fuel(insert_sorted, 2);
    let r = insert_sorted(c, s);
    if s.len() == 0 {
        assert(r[0] == c);
        assert forall|d: Coord| r.contains(d) <==> s.contains(d) || d == c by {
            if r.contains(d) {
                let i = choose|i: int| 0 <= i < r.len() && r[i] == d;
                assert(d == c);
            }
            if d == c {
                assert(r[0] == d);
                assert(r.contains(d));
            }
        }
    } else if coord_lt(c, s[0]) {
        assert forall|i: int, j: int|
            #![trigger r[i], r[j]]
            0 <= i < j < r.len() implies coord_lt(r[i], r[j]) by {
            if i == 0 {
                assert(r[j] == s[j - 1]);
                assert(s.contains(s[j - 1]));
            } else {
                assert(r[i] == s[i - 1] && r[j] == s[j - 1]);
            }
        }
        assert forall|d: Coord| r.contains(d) <==> s.contains(d) || d == c by {
            if r.contains(d) {
                let i = choose|i: int| 0 <= i < r.len() && r[i] == d;
                if i == 0 {
                    assert(d == c);
                } else {
                    assert(s[i - 1] == d);
                    assert(s.contains(d));
                }
            }
            if s.contains(d) {
                let i = choose|i: int| 0 <= i < s.len() && s[i] == d;
                assert(r[i + 1] == d);
                assert(r.contains(d));
            }
            if d == c {
                assert(r[0] == d);
                assert(r.contains(d));
            }
        }
    } else if c == s[0] {
        assert forall|d: Coord| r.contains(d) <==> s.contains(d) || d == c by {
            if d == c {
                assert(s[0] == d);
                assert(s.contains(d));
            }
        }
    } else {
        let t = s.drop_first();
        assert forall|i: int, j: int|
            #![trigger t[i], t[j]]
            0 <= i < j < t.len() implies coord_lt(t[i], t[j]) by {
            assert(t[i] == s[i + 1] && t[j] == s[j + 1]);
        }
        lemma_insert_sorted(c, t);
        let rec = insert_sorted(c, t);
        // the head is below every cell of the recursive result
        assert forall|j: int| 0 <= j < rec.len() implies coord_lt(s[0], rec[j]) by {
            assert(rec.contains(rec[j]));
            if t.contains(rec[j]) {
                let k = choose|k: int| 0 <= k < t.len() && t[k] == rec[j];
                assert(s[k + 1] == t[k]);
            } else {
                assert(rec[j] == c);
            }
        }
        assert forall|i: int, j: int|
            #![trigger r[i], r[j]]
            0 <= i < j < r.len() implies coord_lt(r[i], r[j]) by {
            if i == 0 {
                assert(r[j] == rec[j - 1]);
            } else {
                assert(r[i] == rec[i - 1] && r[j] == rec[j - 1]);
            }
        }
        assert forall|d: Coord| r.contains(d) <==> s.contains(d) || d == c by {
            if r.contains(d) {
                let i = choose|i: int| 0 <= i < r.len() && r[i] == d;
                if i == 0 {
                    assert(s[0] == d);
                    assert(s.contains(d));
                } else {
                    assert(rec[i - 1] == d);
                    assert(rec.contains(d));
                    if t.contains(d) {
                        let k = choose|k: int| 0 <= k < t.len() && t[k] == d;
                        assert(s[k + 1] == d);
                        assert(s.contains(d));
                    }
                }
            }
            if s.contains(d) {
                let i = choose|i: int| 0 <= i < s.len() && s[i] == d;
                if i == 0 {
                    assert(r[0] == d);
                    assert(r.contains(d));
                } else {
                    assert(t[i - 1] == d);
                    assert(t.contains(d));
                    assert(rec.contains(d));
                    let k = choose|k: int| 0 <= k < rec.len() && rec[k] == d;
                    assert(r[k + 1] == d);
                    assert(r.contains(d));
                }
            }
            if d == c {
                assert(rec.contains(d));
                let k = choose|k: int| 0 <= k < rec.len() && rec[k] == d;
                assert(r[k + 1] == d);
                assert(r.contains(d));
            }
        }
    }
}

/// Sorting and deduplicating keeps exactly the members of the input.
pub proof fn lemma_sort_dedup(l: Seq<Coord>)
    ensures
        strictly_sorted(sort_dedup(l)),
        forall|d: Coord|
            #![trigger sort_dedup(l).contains(d)]
            #![trigger l.contains(d)]
            sort_dedup(l).contains(d) <==> l.contains(d),
    decreases l.len(),
{
    reveal_with_fuel(sort_dedup, 2);
    if l.len() == 0 {
        assert forall|d: Coord| sort_dedup(l).contains(d) <==> l.contains(d) by {
            if sort_dedup(l).contains(d) {
                let i = choose|i: int| 0 <= i < sort_dedup(l).len() && sort_dedup(l)[i] == d;
            }
        }
    } else {
        let u = l.drop_last();
        lemma_sort_dedup(u);
        lemma_insert_sorted(l.last(), sort_dedup(u));
        assert forall|d: Coord| sort_dedup(l).contains(d) <==> l.contains(d) by {
            if sort_dedup(l).contains(d) {
                if u.contains(d) {
                    let i = choose|i: int| 0 <= i < u.len() && u[i] == d;
                    assert(l[i] == d);
                    assert(l.contains(d));
                } else {
                    assert(d == l.last());
                    assert(l[l.len() - 1] == d);
                    assert(l.contains(d));
                }
            }
            if l.contains(d) {
                let i = choose|i: int| 0 <= i < l.len() && l[i] == d;
                if i < l.len() - 1 {
                    assert(u[i] == d);
                    assert(u.contains(d));
                } else {
                    assert(d == l.last());
                }
            }
        }
    }
}

/// The cells of `l`, each moved by the displacement `(dx, dy)`.
#[verifier::opaque]
pub open spec fn shift_cells(l: Seq<Coord>, dx: int, dy: int) -> Seq<Coord> {
    Seq::new(l.len(), |i: int| Coord { x: (l[i].x + dx) as isize, y: (l[i].y + dy) as isize })
}

/// When the moved coordinates stay in range, the casts inside `shift_cells`
/// are exact.
pub proof fn lemma_shift_cells(l: Seq<Coord>, dx: int, dy: int)
    requires
        forall|i: int|
            0 <= i < l.len() ==> isize::MIN <= (#[trigger] l[i]).x + dx <= isize::MAX
                && isize::MIN <= l[i].y + dy <= isize::MAX,
    ensures
        shift_cells(l, dx, dy).len() == l.len(),
        forall|i: int|
            0 <= i < l.len() ==> cell_shifted(#[trigger] shift_cells(l, dx, dy)[i], l[i], dx, dy),
{
    reveal(shift_cells);
}

/// The canonical representative of an arbitrary cell list: translate every
/// cell so that the least coordinates reach zero, then sort and deduplicate.
#[verifier::opaque]
pub open spec fn spec_normalize(l: Seq<Coord>) -> Seq<Coord> {
    if l.len() == 0 {
        Seq::empty()
    } else {
        sort_dedup(shift_cells(l, -seq_min_x(l), -seq_min_y(l)))
    }
}

/// Assembles the canonical-form invariant and the translation witness from
/// elementwise facts about a shifted copy `sh` of `l` and a sorted
/// rearrangement `n` of `sh`.
proof fn lemma_norm_parts(
    l: Seq<Coord>,
    sh: Seq<Coord>,
    n: Seq<Coord>,
    dx: int,
    dy: int,
    wx: int,
    wy: int,
)
    requires
        l.len() > 0,
        sh.len() == l.len(),
        forall|i: int| 0 <= i < sh.len() ==> cell_shifted(#[trigger] sh[i], l[i], dx, dy),
        forall|i: int| 0 <= i < sh.len() ==> (#[trigger] sh[i]).x >= 0 && sh[i].y >= 0,
        0 <= wx < sh.len() && sh[wx].x == 0,
        0 <= wy < sh.len() && sh[wy].y == 0,
        strictly_sorted(n),
        forall|d: Coord|
            #![trigger n.contains(d)]
            #![trigger sh.contains(d)]
            n.contains(d) <==> sh.contains(d),
    ensures
        is_normal(n),
        is_shift_of(n, l, dx, dy),
{
    assert forall|i: int| 0 <= i < n.len() implies (#[trigger] n[i]).x >= 0 && n[i].y >= 0 by {
        assert(n.contains(n[i]));
        assert(sh.contains(n[i]));
        let k = choose|k: int| 0 <= k < sh.len() && sh[k] == n[i];
        assert(sh[k].x >= 0 && sh[k].y >= 0);
    }
    assert(sh.contains(sh[wx]));
    assert(n.contains(sh[wx]));
    let ix = choose|i: int| 0 <= i < n.len() && n[i] == sh[wx];
    assert(n[ix].x == 0);
    assert(sh.contains(sh[wy]));
    assert(n.contains(sh[wy]));
    let iy = choose|i: int| 0 <= i < n.len() && n[i] == sh[wy];
    assert(n[iy].y == 0);
    assert forall|x: int, y: int| #![trigger has_cell(l, x, y)]
        has_cell(n, x + dx, y + dy) <==> has_cell(l, x, y) by {
        if has_cell(l, x, y) {
            let j = choose|j: int| 0 <= j < l.len() && (#[trigger] l[j]).x == x && l[j].y == y;
            assert(cell_shifted(sh[j], l[j], dx, dy));
            assert(sh.contains(sh[j]));
            assert(n.contains(sh[j]));
            let i = choose|i: int| 0 <= i < n.len() && n[i] == sh[j];
            assert(n[i].x == x + dx && n[i].y == y + dy);
            assert(has_cell(n, x + dx, y + dy));
        }
        if has_cell(n, x + dx, y + dy) {
            let i = choose|i: int|
                0 <= i < n.len() && (#[trigger] n[i]).x == x + dx && n[i].y == y + dy;
            assert(n.contains(n[i]));
            assert(sh.contains(n[i]));
            let k = choose|k: int| 0 <= k < sh.len() && sh[k] == n[i];
            assert(cell_shifted(sh[k], l[k], dx, dy));
            assert(l[k].x == x && l[k].y == y);
            assert(has_cell(l, x, y));
        }
    }
}

/// The canonical representative satisfies the canonical-form invariant and is
/// a uniform translation of the input.
pub proof fn lemma_spec_normalize_is_normalization(l: Seq<Coord>)
    requires
        spans_fit(l),
    ensures
        is_normalization_of(spec_normalize(l), l),
        l.len() == 0 ==> spec_normalize(l) == Seq::<Coord>::empty(),
{
    reveal(spec_normalize);
    let n = spec_normalize(l);
    if l.len() == 0 {
        assert forall|x: int, y: int| #![trigger has_cell(l, x, y)]
            has_cell(n, x + 0, y + 0) <==> has_cell(l, x, y) by {
            if has_cell(n, x + 0, y + 0) {
                let i = choose|i: int|
                    0 <= i < n.len() && (#[trigger] n[i]).x == x && n[i].y == y;
            }
            if has_cell(l, x, y) {
                let i = choose|i: int|
                    0 <= i < l.len() && (#[trigger] l[i]).x == x && l[i].y == y;
            }
        }
        assert(is_shift_of(n, l, 0, 0));
    } else {
        lemma_seq_min_x(l);
        lemma_seq_min_y(l);
        let dx = -seq_min_x(l);
        let dy = -seq_min_y(l);
        let wx = choose|w: int| 0 <= w < l.len() && (#[trigger] l[w]).x == seq_min_x(l);
        let wy = choose|w: int| 0 <= w < l.len() && (#[trigger] l[w]).y == seq_min_y(l);
        assert forall|i: int| 0 <= i < l.len() implies isize::MIN <= (#[trigger] l[i]).x + dx
            <= isize::MAX && isize::MIN <= l[i].y + dy <= isize::MAX by {
            assert(l[i].x - l[wx].x <= isize::MAX);
            assert(l[i].y - l[wy].y <= isize::MAX);
        }
        lemma_shift_cells(l, dx, dy);
        let sh = shift_cells(l, dx, dy);
        lemma_sort_dedup(sh);
        assert(sh[wx].x == 0);
        assert(sh[wy].y == 0);
        lemma_norm_parts(l, sh, n, dx, dy, wx, wy);
    }
}

/// Two strictly sorted lists with the same members are equal.
pub proof fn lemma_sorted_unique(s1: Seq<Coord>, s2: Seq<Coord>)
    requires
        strictly_sorted(s1),
        strictly_sorted(s2),
        forall|d: Coord|
            #![trigger s1.contains(d)]
            #![trigger s2.contains(d)]
            s1.contains(d) <==> s2.contains(d),
    ensures
        s1 == s2,
    decreases s1.len(),
{
    if s1.len() == 0 {
        if s2.len() > 0 {
            assert(s2.contains(s2[0]));
            assert(s1.contains(s2[0]));
        }
        assert(s1 =~= s2);
    } else {
        assert(s1.contains(s1[0]));
        assert(s2.contains(s1[0]));
        let j = choose|j: int| 0 <= j < s2.len() && s2[j] == s1[0];
        assert(s2.contains(s2[0]));
        assert(s1.contains(s2[0]));
        let i = choose|i: int| 0 <= i < s1.len() && s1[i] == s2[0];
        assert(s1[0] == s2[0]);
        let t1 = s1.drop_first();
        let t2 = s2.drop_first();
        assert forall|p: int, q: int|
            #![trigger t1[p], t1[q]]
            0 <= p < q < t1.len() implies coord_lt(t1[p], t1[q]) by {
            assert(t1[p] == s1[p + 1] && t1[q] == s1[q + 1]);
        }
        assert forall|p: int, q: int|
            #![trigger t2[p], t2[q]]
            0 <= p < q < t2.len() implies coord_lt(t2[p], t2[q]) by {
            assert(t2[p] == s2[p + 1] && t2[q] == s2[q + 1]);
        }
        assert forall|d: Coord|
            #![trigger t1.contains(d)]
            #![trigger t2.contains(d)]
            t1.contains(d) <==> t2.contains(d) by {
            if t1.contains(d) {
                let k = choose|k: int| 0 <= k < t1.len() && t1[k] == d;
                assert(s1[k + 1] == d);
                assert(s1.contains(d));
                assert(coord_lt(s1[0], d));
                assert(s2.contains(d));
                let m = choose|m: int| 0 <= m < s2.len() && s2[m] == d;
                assert(m != 0);
                assert(t2[m - 1] == d);
                assert(t2.contains(d));
            }
            if t2.contains(d) {
                let k = choose|k: int| 0 <= k < t2.len() && t2[k] == d;
                assert(s2[k + 1] == d);
                assert(s2.contains(d));
                assert(coord_lt(s2[0], d));
                assert(s1.contains(d));
                let m = choose|m: int| 0 <= m < s1.len() && s1[m] == d;
                assert(m != 0);
                assert(t1[m - 1] == d);
                assert(t1.contains(d));
            }
        }
        lemma_sorted_unique(t1, t2);
        assert(s1.len() == s2.len());
        assert forall|k: int| 0 <= k < s1.len() implies s1[k] == s2[k] by {
            if k > 0 {
                assert(t1[k - 1] == s1[k] && t2[k - 1] == s2[k]);
            }
        }
        assert(s1 =~= s2);
    }
}

/// A cell list has exactly one canonical representative.
pub proof fn lemma_normalization_unique(s1: Seq<Coord>, s2: Seq<Coord>, l: Seq<Coord>)
    requires
        is_normalization_of(s1, l),
        is_normalization_of(s2, l),
    ensures
        s1 == s2,
{
    let (d1x, d1y) = choose|dx: int, dy: int| is_shift_of(s1, l, dx, dy);
    let (d2x, d2y) = choose|dx: int, dy: int| is_shift_of(s2, l, dx, dy);
    let ddx = d1x - d2x;
    let ddy = d1y - d2y;
    // compose the two translations: s1 holds the cells of s2 moved by (ddx, ddy)
    assert forall|x: int, y: int| #![trigger has_cell(s2, x, y)]
        has_cell(s1, x + ddx, y + ddy) <==> has_cell(s2, x, y) by {
        assert(has_cell(s1, (x - d2x) + d1x, (y - d2y) + d1y) <==> has_cell(l, x - d2x, y - d2y));
        assert(has_cell(s2, (x - d2x) + d2x, (y - d2y) + d2y) <==> has_cell(l, x - d2x, y - d2y));
    }
    assert(is_shift_of(s1, s2, ddx, ddy));
    if s2.len() == 0 {
        if s1.len() > 0 {
            assert(has_cell(s1, s1[0].x as int, s1[0].y as int));
            assert(has_cell(s1, (s1[0].x - ddx) + ddx, (s1[0].y - ddy) + ddy) <==> has_cell(
                s2,
                s1[0].x - ddx,
                s1[0].y - ddy,
            ));
            let j = choose|j: int|
                0 <= j < s2.len() && (#[trigger] s2[j]).x == s1[0].x - ddx && s2[j].y == s1[0].y
                    - ddy;
        }
        assert(s1 =~= s2);
    } else {
        // s2 is nonempty, so s1 is as well
        assert(has_cell(s2, s2[0].x as int, s2[0].y as int));
        assert(has_cell(s1, s2[0].x + ddx, s2[0].y + ddy));
        let i0 = choose|i: int|
            0 <= i < s1.len() && (#[trigger] s1[i]).x == s2[0].x + ddx && s1[i].y == s2[0].y + ddy;
        assert(s1.len() > 0);
        // both lists touch zero on each axis, so the residual displacement vanishes
        let a = choose|i: int| 0 <= i < s1.len() && (#[trigger] s1[i]).x == 0;
        assert(has_cell(s1, s1[a].x as int, s1[a].y as int));
        assert(has_cell(s1, (s1[a].x - ddx) + ddx, (s1[a].y - ddy) + ddy) <==> has_cell(
            s2,
            s1[a].x - ddx,
            s1[a].y - ddy,
        ));
        let ja = choose|j: int|
            0 <= j < s2.len() && (#[trigger] s2[j]).x == s1[a].x - ddx && s2[j].y == s1[a].y - ddy;
        assert(s2[ja].x >= 0);
        assert(ddx <= 0);
        let b = choose|j: int| 0 <= j < s2.len() && (#[trigger] s2[j]).x == 0;
        assert(has_cell(s2, s2[b].x as int, s2[b].y as int));
        assert(has_cell(s1, s2[b].x + ddx, s2[b].y + ddy));
        let ib = choose|i: int|
            0 <= i < s1.len() && (#[trigger] s1[i]).x == s2[b].x + ddx && s1[i].y == s2[b].y + ddy;
        assert(s1[ib].x >= 0);
        assert(ddx >= 0);
        let c = choose|i: int| 0 <= i < s1.len() && (#[trigger] s1[i]).y == 0;
        assert(has_cell(s1, s1[c].x as int, s1[c].y as int));
        assert(has_cell(s1, (s1[c].x - ddx) + ddx, (s1[c].y - ddy) + ddy) <==> has_cell(
            s2,
            s1[c].x - ddx,
            s1[c].y - ddy,
        ));
        let jc = choose|j: int|
            0 <= j < s2.len() && (#[trigger] s2[j]).x == s1[c].x - ddx && s2[j].y == s1[c].y - ddy;
        assert(s2[jc].y >= 0);
        assert(ddy <= 0);
        let e = choose|j: int| 0 <= j < s2.len() && (#[trigger] s2[j]).y == 0;
        assert(has_cell(s2, s2[e].x as int, s2[e].y as int));
        assert(has_cell(s1, s2[e].x + ddx, s2[e].y + ddy));
        let ie = choose|i: int|
            0 <= i < s1.len() && (#[trigger] s1[i]).x == s2[e].x + ddx && s1[i].y == s2[e].y + ddy;
        assert(s1[ie].y >= 0);
        assert(ddy >= 0);
        // the same members, so the same sorted list
        assert forall|d: Coord|
            #![trigger s1.contains(d)]
            #![trigger s2.contains(d)]
            s1.contains(d) <==> s2.contains(d) by {
            if s1.contains(d) {
                let i = choose|i: int| 0 <= i < s1.len() && s1[i] == d;
                assert(has_cell(s1, d.x as int, d.y as int));
                assert(has_cell(s1, (d.x - ddx) + ddx, (d.y - ddy) + ddy) <==> has_cell(
                    s2,
                    d.x - ddx,
                    d.y - ddy,
                ));
                let j = choose|j: int|
                    0 <= j < s2.len() && (#[trigger] s2[j]).x == d.x && s2[j].y == d.y;
                assert(s2[j] =~= d);
                assert(s2.contains(d));
            }
            if s2.contains(d) {
                let j = choose|j: int| 0 <= j < s2.len() && s2[j] == d;
                assert(has_cell(s2, d.x as int, d.y as int));
                assert(has_cell(s1, d.x + ddx, d.y + ddy));
                let i = choose|i: int|
                    0 <= i < s1.len() && (#[trigger] s1[i]).x == d.x && s1[i].y == d.y;
                assert(s1[i] =~= d);
                assert(s1.contains(d));
            }
        }
        lemma_sorted_unique(s1, s2);
    }
}

/// A canonical list is its own canonical representative.
pub proof fn lemma_normalize_of_normal(s: Seq<Coord>)
    requires
        is_normal(s),
    ensures
        spec_normalize(s) == s,
{
    assert(spans_fit(s));
    lemma_spec_normalize_is_normalization(s);
    assert forall|x: int, y: int| #![trigger has_cell(s, x, y)]
        has_cell(s, x + 0, y + 0) <==> has_cell(s, x, y) by {
    }
    assert(is_shift_of(s, s, 0, 0));
    lemma_normalization_unique(spec_normalize(s), s, s);
}

/// Normalization is idempotent: renormalizing a canonical representative
/// returns it unchanged.
pub proof fn lemma_normalize_idempotent(l: Seq<Coord>)
    requires
        spans_fit(l),
    ensures
        spec_normalize(spec_normalize(l)) == spec_normalize(l),
{
    lemma_spec_normalize_is_normalization(l);
    lemma_normalize_of_normal(spec_normalize(l));
}

/// Normalization is translation invariant: two cell lists that differ only by
/// a uniform displacement share one canonical representative.
pub proof fn lemma_normalize_translation_invariant(l1: Seq<Coord>, l2: Seq<Coord>, dx: int, dy: int)
    requires
        spans_fit(l1),
        is_shift_of(l2, l1, dx, dy),
    ensures
        spec_normalize(l2) == spec_normalize(l1),
{
    // displacing every cell leaves every pairwise difference unchanged
    assert forall|i: int, j: int|
        #![trigger l2[i], l2[j]]
        0 <= i < l2.len() && 0 <= j < l2.len() implies l2[i].x - l2[j].x <= isize::MAX
        && l2[i].y - l2[j].y <= isize::MAX by {
        assert(has_cell(l2, l2[i].x as int, l2[i].y as int));
        assert(has_cell(l2, (l2[i].x - dx) + dx, (l2[i].y - dy) + dy) <==> has_cell(
            l1,
            l2[i].x - dx,
            l2[i].y - dy,
        ));
        let a = choose|a: int|
            0 <= a < l1.len() && (#[trigger] l1[a]).x == l2[i].x - dx && l1[a].y == l2[i].y - dy;
        assert(has_cell(l2, l2[j].x as int, l2[j].y as int));
        assert(has_cell(l2, (l2[j].x - dx) + dx, (l2[j].y - dy) + dy) <==> has_cell(
            l1,
            l2[j].x - dx,
            l2[j].y - dy,
        ));
        let b = choose|b: int|
            0 <= b < l1.len() && (#[trigger] l1[b]).x == l2[j].x - dx && l1[b].y == l2[j].y - dy;
        assert(l1[a].x - l1[b].x <= isize::MAX);
        assert(l1[a].y - l1[b].y <= isize::MAX);
    }
    lemma_spec_normalize_is_normalization(l1);
    lemma_spec_normalize_is_normalization(l2);
    let n1 = spec_normalize(l1);
    let (ex, ey) = choose|ex: int, ey: int| is_shift_of(n1, l1, ex, ey);
    // n1 also holds the cells of l2, moved by the composed displacement
    assert forall|x: int, y: int| #![trigger has_cell(l2, x, y)]
        has_cell(n1, x + (ex - dx), y + (ey - dy)) <==> has_cell(l2, x, y) by {
        assert(has_cell(n1, (x - dx) + ex, (y - dy) + ey) <==> has_cell(l1, x - dx, y - dy));
        assert(has_cell(l2, (x - dx) + dx, (y - dy) + dy) <==> has_cell(l1, x - dx, y - dy));
    }
    assert(is_shift_of(n1, l2, ex - dx, ey - dy));
    lemma_normalization_unique(spec_normalize(l2), n1, l2);
}

/// The translation relation is symmetric, with the opposite displacement.
pub proof fn lemma_shift_sym(a: Seq<Coord>, b: Seq<Coord>, dx: int, dy: int)
    requires
        is_shift_of(a, b, dx, dy),
    ensures
        is_shift_of(b, a, -dx, -dy),
{
    assert forall|x: int, y: int| #![trigger has_cell(a, x, y)]
        has_cell(b, x + (-dx), y + (-dy)) <==> has_cell(a, x, y) by {
        assert(has_cell(a, (x - dx) + dx, (y - dy) + dy) <==> has_cell(b, x - dx, y - dy));
    }
}

/// The translation relation composes, adding the displacements.
pub proof fn lemma_shift_trans(
    a: Seq<Coord>,
    b: Seq<Coord>,
    c: Seq<Coord>,
    d1x: int,
    d1y: int,
    d2x: int,
    d2y: int,
)
    requires
        is_shift_of(a, b, d1x, d1y),
        is_shift_of(b, c, d2x, d2y),
    ensures
        is_shift_of(a, c, d1x + d2x, d1y + d2y),
{
    assert forall|x: int, y: int| #![trigger has_cell(c, x, y)]
        has_cell(a, x + (d1x + d2x), y + (d1y + d2y)) <==> has_cell(c, x, y) by {
        assert(has_cell(b, x + d2x, y + d2y) <==> has_cell(c, x, y));
        assert(has_cell(a, (x + d2x) + d1x, (y + d2y) + d1y) <==> has_cell(b, x + d2x, y + d2y));
    }
}

/// Translating a canonical shape and renormalizing recovers the shape itself.
pub proof fn lemma_normalize_translated(s: Seq<Coord>, l: Seq<Coord>, dx: int, dy: int)
    requires
        is_normal(s),
        is_shift_of(l, s, dx, dy),
    ensures
        spec_normalize(l) == s,
{
    assert(spans_fit(s));
    lemma_normalize_of_normal(s);
    lemma_normalize_translation_invariant(s, l, dx, dy);
}

} // verus!
