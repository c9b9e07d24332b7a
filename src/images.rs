//! Periodic images: integer lattice translations, and the box of all
//! translations that a search with given per-axis half-extents visits.
use vstd::prelude::*;

verus! {

/// An integer lattice translation `a * A + b * B + c * C`, in units of the
/// three cell vectors.
#[derive(Clone, Copy, Debug, PartialEq, Eq, Structural)]
pub struct Image {
    pub a: i64,
    pub b: i64,
    pub c: i64,
}

/// The opposite translation.
pub open spec fn opposite(t: Image) -> Image {
    Image { a: (-t.a) as i64, b: (-t.b) as i64, c: (-t.c) as i64 }
}

/// Whether the opposite of `t` is representable.
pub open spec fn has_opposite(t: Image) -> bool {
    t.a > i64::MIN && t.b > i64::MIN && t.c > i64::MIN
}

/// The translations `(a, b, c)` for `c` running over `-nc..=nc`, in order.
pub open spec fn image_row(a: int, b: int, nc: nat) -> Seq<Image> {
    Seq::new(2 * nc + 1, |k: int| Image { a: a as i64, b: b as i64, c: (k - nc) as i64 })
}

/// The translations `(a, b, c)` for `b` in `-nb..=nb` and `c` in `-nc..=nc`,
/// in lexicographic order.
pub open spec fn image_plane(a: int, nb: nat, nc: nat) -> Seq<Image> {
    plane_rows(2 * nb + 1, a, nb, nc).flatten()
}

/// All translations with `|a| <= na`, `|b| <= nb` and `|c| <= nc`, in
/// lexicographic order: `(2na+1)(2nb+1)(2nc+1)` of them.
pub open spec fn image_box(na: nat, nb: nat, nc: nat) -> Seq<Image> {
    box_planes(2 * na + 1, na, nb, nc).flatten()
}

impl Image {
    /// The translation that undoes this one.
    pub fn opposite(&self) -> (r: Image)
        requires
            has_opposite(*self),
        ensures
            r == opposite(*self),
    {
        Image { a: -self.a, b: -self.b, c: -self.c }
    }
}

/// The first `n` rows of the plane at `a`.
pub open spec fn plane_rows(n: nat, a: int, nb: nat, nc: nat) -> Seq<Seq<Image>> {
    Seq::new(n, |j: int| image_row(a, j - nb, nc))
}

/// The first `n` planes of the box.
pub open spec fn box_planes(n: nat, na: nat, nb: nat, nc: nat) -> Seq<Seq<Image>> {
    Seq::new(n, |i: int| image_plane(i - na, nb, nc))
}

/// Whether `|a| <= na`, `|b| <= nb` and `|c| <= nc`.
pub open spec fn in_box(t: Image, na: nat, nb: nat, nc: nat) -> bool {
    &&& -na <= t.a <= na
    &&& -nb <= t.b <= nb
    &&& -nc <= t.c <= nc
}

proof fn lemma_flatten_has<A>(ss: Seq<Seq<A>>, i: int, j: int)
    requires
        0 <= i < ss.len(),
        0 <= j < ss[i].len(),
    ensures
        ss.flatten().contains(ss[i][j]),
    decreases ss.len(),
{
    if i == 0 {
        assert(ss.flatten()[j] == ss[0][j]);
    } else {
        let rest = ss.drop_first();
        assert(rest[i - 1] == ss[i]);
        lemma_flatten_has(rest, i - 1, j);
        let m = choose|m: int| 0 <= m < rest.flatten().len() && rest.flatten()[m] == ss[i][j];
        assert(ss.flatten()[ss[0].len() + m] == ss[i][j]);
    }
}

proof fn lemma_flatten_member<A>(ss: Seq<Seq<A>>, x: A)
    requires
        ss.flatten().contains(x),
    ensures
        exists|i: int, j: int| 0 <= i < ss.len() && 0 <= j < ss[i].len() && #[trigger] ss[i][j] == x,
    decreases ss.len(),
{
    let m = choose|m: int| 0 <= m < ss.flatten().len() && ss.flatten()[m] == x;
    if m < ss[0].len() {
        assert(ss[0][m] == x);
    } else {
        let rest = ss.drop_first();
        assert(rest.flatten()[m - ss[0].len()] == x);
        lemma_flatten_member(rest, x);
        let (i, j) = choose|i: int, j: int|
            0 <= i < rest.len() && 0 <= j < rest[i].len() && #[trigger] rest[i][j] == x;
        assert(ss[i + 1][j] == x);
    }
}

/// The translations of `image_box(na, nb, nc)` are exactly those with
/// `|a| <= na`, `|b| <= nb` and `|c| <= nc`.
pub proof fn lemma_image_box_members(na: nat, nb: nat, nc: nat, t: Image)
    requires
        na <= u32::MAX,
        nb <= u32::MAX,
        nc <= u32::MAX,
    ensures
        image_box(na, nb, nc).contains(t) <==> in_box(t, na, nb, nc),
{
    let planes = box_planes(2 * na + 1, na, nb, nc);
    if in_box(t, na, nb, nc) {
        let i = t.a + na;
        let j = t.b + nb;
        let k = t.c + nc;
        let rows = plane_rows(2 * nb + 1, t.a as int, nb, nc);
        assert(rows[j][k] == t);
        lemma_flatten_has(rows, j, k);
        let m = choose|m: int| 0 <= m < rows.flatten().len() && rows.flatten()[m] == t;
        assert(planes[i] == rows.flatten());
        lemma_flatten_has(planes, i, m);
    }
    if image_box(na, nb, nc).contains(t) {
        lemma_flatten_member(planes, t);
        let (i, m) = choose|i: int, m: int|
            0 <= i < planes.len() && 0 <= m < planes[i].len() && #[trigger] planes[i][m] == t;
        let rows = plane_rows(2 * nb + 1, i - na, nb, nc);
        assert(planes[i] == rows.flatten());
        assert(rows.flatten().contains(t));
        lemma_flatten_member(rows, t);
        let (j, k) = choose|j: int, k: int|
            0 <= j < rows.len() && 0 <= k < rows[j].len() && #[trigger] rows[j][k] == t;
        assert(rows[j][k] == Image { a: (i - na) as i64, b: (j - nb) as i64, c: (k - nc) as i64 });
    }
}

/// A search with larger half-extents visits every translation that one
/// with smaller half-extents visits.
pub proof fn lemma_image_box_grows(na: nat, nb: nat, nc: nat, ma: nat, mb: nat, mc: nat, t: Image)
    requires
        na <= ma <= u32::MAX,
        nb <= mb <= u32::MAX,
        nc <= mc <= u32::MAX,
        image_box(na, nb, nc).contains(t),
    ensures
        image_box(ma, mb, mc).contains(t),
{
    lemma_image_box_members(na, nb, nc, t);
    lemma_image_box_members(ma, mb, mc, t);
}

/// Every translation that a search with half-extents `na`, `nb`, `nc`
/// visits, each once, in lexicographic order.
pub fn image_translations(na: u32, nb: u32, nc: u32) -> (r: Vec<Image>)
    ensures
        r@ == image_box(na as nat, nb as nat, nc as nat),
{
    let mut r: Vec<Image> = Vec::new();
    let mut a: i64 = -(na as i64);
    assert(r@ =~= box_planes(0, na as nat, nb as nat, nc as nat).flatten());
    while a <= na as i64
        invariant
            -(na as i64) <= a <= na as i64 + 1,
            r@ == box_planes((a + na) as nat, na as nat, nb as nat, nc as nat).flatten(),
        decreases na as i64 + 1 - a,
    {
        let ghost before = r@;
        let mut b: i64 = -(nb as i64);
        assert(r@ =~= before + plane_rows(0, a as int, nb as nat, nc as nat).flatten());
        while b <= nb as i64
            invariant
                -(na as i64) <= a <= na as i64,
                -(nb as i64) <= b <= nb as i64 + 1,
                r@ == before + plane_rows((b + nb) as nat, a as int, nb as nat, nc as nat).flatten(),
            decreases nb as i64 + 1 - b,
        {
            let ghost before_row = r@;
            let mut c: i64 = -(nc as i64);
            assert(r@ =~= before_row + image_row(a as int, b as int, nc as nat).take(0));
            while c <= nc as i64
                invariant
                    -(na as i64) <= a <= na as i64,
                    -(nb as i64) <= b <= nb as i64,
                    -(nc as i64) <= c <= nc as i64 + 1,
                    r@ == before_row + image_row(a as int, b as int, nc as nat).take((c + nc) as int),
                decreases nc as i64 + 1 - c,
            {
                r.push(Image { a, b, c });
                proof {
                    let row = image_row(a as int, b as int, nc as nat);
                    assert(row[(c + nc) as int] == Image { a, b, c });
                    assert(row.take((c + 1 + nc) as int) =~= row.take((c + nc) as int).push(
                        Image { a, b, c },
                    ));
                }
                c = c + 1;
            }
            proof {
                let rows = plane_rows((b + nb) as nat, a as int, nb as nat, nc as nat);
                let row = image_row(a as int, b as int, nc as nat);
                assert(row.take((c + nc) as int) =~= row);
                assert(plane_rows((b + 1 + nb) as nat, a as int, nb as nat, nc as nat) =~= rows.push(
                    row,
                ));
                rows.lemma_flatten_push(row);
            }
            b = b + 1;
        }
        proof {
            let planes = box_planes((a + na) as nat, na as nat, nb as nat, nc as nat);
            assert(plane_rows((b + nb) as nat, a as int, nb as nat, nc as nat) =~= plane_rows(
                2 * (nb as nat) + 1,
                a as int,
                nb as nat,
                nc as nat,
            ));
            assert(box_planes((a + 1 + na) as nat, na as nat, nb as nat, nc as nat) =~= planes.push(
                image_plane(a as int, nb as nat, nc as nat),
            ));
            planes.lemma_flatten_push(image_plane(a as int, nb as nat, nc as nat));
        }
        a = a + 1;
    }
    assert(box_planes((a + na) as nat, na as nat, nb as nat, nc as nat) =~= box_planes(
        2 * (na as nat) + 1,
        na as nat,
        nb as nat,
        nc as nat,
    ));
    r
}

} // verus!
