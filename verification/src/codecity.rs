//! The city data model: rectangles, the shelf packer, buildings and packages.

use vstd::prelude::*;

verus! {

/// A 2-D footprint: a width and a depth, plus the position assigned to it by
/// the packer inside the parent's local coordinate frame.
#[derive(Debug, Clone, Copy, PartialEq, Eq, Structural)]
pub struct Rect {
    pub width: u16,
    pub depth: u16,
    pub pos_w: u16,
    pub pos_d: u16,
}

/// The axis along which the packer last grew the bounding box.
#[derive(Debug, Clone, Copy, PartialEq, Eq, Structural)]
pub enum Direction {
    Width,
    Depth,
}

/// The mutable state of one packing pass over one package's children:
/// the current bounding box, the free room left on the current shelf,
/// the cursor where the next same-shelf item goes, and the growth axis.
#[derive(Debug, Clone, Copy, PartialEq, Eq, Structural)]
pub struct PackState {
    pub width: u16,
    pub depth: u16,
    pub free_w: u16,
    pub free_d: u16,
    pub cur_w: u16,
    pub cur_d: u16,
    pub dir: Direction,
}

pub open spec fn max16(a: u16, b: u16) -> u16 {
    if a >= b {
        a
    } else {
        b
    }
}

pub open spec fn sat_sub16(a: u16, b: u16) -> u16 {
    if a >= b {
        (a - b) as u16
    } else {
        0
    }
}

/// The packing state is well formed: the shelf zone lies inside the bounding
/// box and the cursor is inside the one-unit border.
pub open spec fn state_wf(s: PackState) -> bool {
    &&& 1 <= s.cur_w
    &&& 1 <= s.cur_d
    &&& 1 <= s.width
    &&& 1 <= s.depth
    &&& s.free_w > 0 && s.free_d > 0 ==> s.cur_w + s.free_w <= s.width && s.cur_d + s.free_d
        <= s.depth
}

/// Placing `r` cannot overflow the bounding box arithmetic.
pub open spec fn fits_bound(r: Rect, s: PackState) -> bool {
    &&& s.width + r.width + 2 <= u16::MAX
    &&& s.depth + r.depth + 2 <= u16::MAX
}

/// One step of the shelf packer: either the item still fits on the current
/// shelf and is placed at the cursor, or the bounding box grows along its
/// currently smaller axis and the item starts a fresh shelf there.
pub open spec fn place_step(r: Rect, s: PackState) -> (Rect, PackState) {
    if r.width > s.free_w || r.depth > s.free_d {
        if s.width <= s.depth {
            let depth2 = max16(s.depth, (r.depth + 2) as u16);
            (
                (Rect { pos_w: s.width, pos_d: 1, ..r }),
                (PackState {
                    dir: Direction::Width,
                    cur_w: s.width,
                    cur_d: (2 + r.depth) as u16,
                    width: (s.width + r.width + 1) as u16,
                    depth: depth2,
                    free_w: r.width,
                    free_d: (depth2 - r.depth - 2) as u16,
                }),
            )
        } else {
            let width2 = max16(s.width, (r.width + 2) as u16);
            (
                (Rect { pos_d: s.depth, pos_w: 1, ..r }),
                (PackState {
                    dir: Direction::Depth,
                    cur_d: s.depth,
                    cur_w: (2 + r.width) as u16,
                    depth: (s.depth + r.depth + 1) as u16,
                    width: width2,
                    free_d: r.depth,
                    free_w: (width2 - r.width - 2) as u16,
                }),
            )
        }
    } else {
        match s.dir {
            Direction::Width => (
                (Rect { pos_w: s.cur_w, pos_d: s.cur_d, ..r }),
                (PackState {
                    free_d: sat_sub16(s.free_d, (r.depth + 1) as u16),
                    cur_d: (s.cur_d + r.depth + 1) as u16,
                    ..s
                }),
            ),
            Direction::Depth => (
                (Rect { pos_d: s.cur_d, pos_w: s.cur_w, ..r }),
                (PackState {
                    free_w: sat_sub16(s.free_w, (r.width + 1) as u16),
                    cur_w: (s.cur_w + r.width + 1) as u16,
                    ..s
                }),
            ),
        }
    }
}

/// The two rectangles, as placed, do not overlap.
pub open spec fn rect_disjoint(a: Rect, b: Rect) -> bool {
    ||| a.pos_w + a.width <= b.pos_w
    ||| b.pos_w + b.width <= a.pos_w
    ||| a.pos_d + a.depth <= b.pos_d
    ||| b.pos_d + b.depth <= a.pos_d
}

/// The rectangle, as placed, lies inside a `w` by `d` bounding box and
/// clears the one-unit border at the low edges.
pub open spec fn rect_in(r: Rect, w: int, d: int) -> bool {
    &&& 1 <= r.pos_w
    &&& 1 <= r.pos_d
    &&& r.pos_w + r.width <= w
    &&& r.pos_d + r.depth <= d
}

/// The rectangle does not intersect the shelf zone of `s`, the region where
/// same-shelf placements still to come will land.
pub open spec fn zone_clear(q: Rect, s: PackState) -> bool {
    ||| s.free_w == 0
    ||| s.free_d == 0
    ||| q.pos_w + q.width <= s.cur_w
    ||| s.cur_w + s.free_w <= q.pos_w
    ||| q.pos_d + q.depth <= s.cur_d
    ||| s.cur_d + s.free_d <= q.pos_d
}

/// A placement step keeps the state well formed, never shrinks the bounding
/// box, and puts the new rectangle inside the box and clear of the new zone.
pub proof fn lemma_place_step(r: Rect, s: PackState)
    requires
        r.width >= 1,
        r.depth >= 1,
        state_wf(s),
        fits_bound(r, s),
    ensures
        ({
            let (r2, s2) = place_step(r, s);
            &&& state_wf(s2)
            &&& s.width <= s2.width
            &&& s.depth <= s2.depth
            &&& r2.width == r.width
            &&& r2.depth == r.depth
            &&& rect_in(r2, s2.width as int, s2.depth as int)
            &&& zone_clear(r2, s2)
        }),
{
    let (r2, s2) = place_step(r, s);
    if r.width > s.free_w || r.depth > s.free_d {
        if s.width <= s.depth {
            let depth2 = max16(s.depth, (r.depth + 2) as u16);
            assert(depth2 >= r.depth + 2);
            assert(s2.cur_d + s2.free_d == depth2);
            assert(s2.cur_w + s2.free_w == s.width + r.width);
        } else {
            let width2 = max16(s.width, (r.width + 2) as u16);
            assert(width2 >= r.width + 2);
            assert(s2.cur_w + s2.free_w == width2);
            assert(s2.cur_d + s2.free_d == s.depth + r.depth);
        }
    } else {
        match s.dir {
            Direction::Width => {
                assert(s.cur_d + r.depth <= s.depth);
                if s2.free_d > 0 {
                    assert(s2.cur_d + s2.free_d == s.cur_d + s.free_d);
                }
            }
            Direction::Depth => {
                assert(s.cur_w + r.width <= s.width);
                if s2.free_w > 0 {
                    assert(s2.cur_w + s2.free_w == s.cur_w + s.free_w);
                }
            }
        }
    }
}

/// A placement step cannot disturb a rectangle that was already placed: one
/// that lay inside the box and clear of the zone stays so, and is disjoint
/// from the newly placed rectangle.
pub proof fn lemma_place_step_old(r: Rect, s: PackState, q: Rect)
    requires
        r.width >= 1,
        r.depth >= 1,
        state_wf(s),
        fits_bound(r, s),
        rect_in(q, s.width as int, s.depth as int),
        zone_clear(q, s),
    ensures
        ({
            let (r2, s2) = place_step(r, s);
            &&& rect_in(q, s2.width as int, s2.depth as int)
            &&& zone_clear(q, s2)
            &&& rect_disjoint(q, r2)
        }),
{
}

fn max_u16(a: u16, b: u16) -> (r: u16)
    ensures
        r == max16(a, b),
{
    if a >= b {
        a
    } else {
        b
    }
}

impl Rect {
    /// A fresh, unplaced rectangle.
    pub fn new(w: u16, d: u16) -> (r: Rect)
        ensures
            r == (Rect { width: w, depth: d, pos_w: 0, pos_d: 0 }),
    {
        Rect { width: w, depth: d, pos_w: 0, pos_d: 0 }
    }

    /// The footprint area, widened so it cannot overflow.
    pub fn area(&self) -> (a: u32)
        ensures
            a == self.width * self.depth,
    {
        proof {
            assert(self.width * self.depth <= 0xFFFF * 0xFFFF) by (nonlinear_arith)
                requires
                    self.width <= 0xFFFF,
                    self.depth <= 0xFFFF,
            ;
        }
        self.width as u32 * self.depth as u32
    }

    /// Place this rectangle according to the packing state, either on the
    /// current shelf or on a fresh shelf after growing the bounding box.
    pub fn place(&mut self, state: &mut PackState)
        requires
            old(self).width >= 1,
            old(self).depth >= 1,
            state_wf(*old(state)),
            fits_bound(*old(self), *old(state)),
        ensures
            *final(self) == place_step(*old(self), *old(state)).0,
            *final(state) == place_step(*old(self), *old(state)).1,
    {
        if self.width > state.free_w || self.depth > state.free_d {
            if state.width <= state.depth {
                state.dir = Direction::Width;
                self.pos_w = state.width;
                self.pos_d = 1;
                state.cur_w = state.width;
                state.cur_d = 2 + self.depth;
                state.width = state.width + self.width + 1;
                state.depth = max_u16(state.depth, self.depth + 2);
                state.free_w = self.width;
                state.free_d = state.depth - self.depth - 2;
            } else {
                state.dir = Direction::Depth;
                self.pos_d = state.depth;
                self.pos_w = 1;
                state.cur_d = state.depth;
                state.cur_w = 2 + self.width;
                state.depth = state.depth + self.depth + 1;
                state.width = max_u16(state.width, self.width + 2);
                state.free_d = self.depth;
                state.free_w = state.width - self.width - 2;
            }
        } else {
            match state.dir {
                Direction::Width => {
                    self.pos_w = state.cur_w;
                    self.pos_d = state.cur_d;
                    let adv = self.depth + 1;
                    state.free_d = if state.free_d >= adv {
                        state.free_d - adv
                    } else {
                        0
                    };
                    state.cur_d = state.cur_d + adv;
                }
                Direction::Depth => {
                    self.pos_d = state.cur_d;
                    self.pos_w = state.cur_w;
                    let adv = self.width + 1;
                    state.free_w = if state.free_w >= adv {
                        state.free_w - adv
                    } else {
                        0
                    };
                    state.cur_w = state.cur_w + adv;
                }
            }
        }
    }
}

/// A leaf entity: a named footprint with a height.
#[derive(Debug)]
pub struct Building {
    pub name: String,
    pub rect: Rect,
    pub height: u16,
}

/// A container node: a named footprint owning child packages and buildings.
#[derive(Debug)]
pub struct Package {
    pub name: String,
    pub rect: Rect,
    pub packages: Vec<Package>,
    pub buildings: Vec<Building>,
}

/// The error conditions of the builder and the packer.
#[derive(Debug, Clone, Copy, PartialEq, Eq, Structural)]
pub enum CityError {
    /// The builder was given an empty path.
    InvalidPath,
    /// The builder was given a zero-sized footprint.
    InvalidDimensions,
    /// Packing would grow a bounding box beyond what `u16` can hold.
    LayoutOverflow,
}

/// The mathematical image of a `Building`.
#[verifier::ext_equal]
pub ghost struct BuildingV {
    pub name: Seq<char>,
    pub rect: Rect,
    pub height: u16,
}

/// The mathematical image of a `Package`.
#[verifier::ext_equal]
pub ghost struct PackageV {
    pub name: Seq<char>,
    pub rect: Rect,
    pub packages: Seq<PackageV>,
    pub buildings: Seq<BuildingV>,
}

pub open spec fn bview(b: Building) -> BuildingV {
    BuildingV { name: b.name@, rect: b.rect, height: b.height }
}

pub open spec fn bviews(s: Seq<Building>) -> Seq<BuildingV> {
    Seq::new(s.len(), |i: int| bview(s[i]))
}

pub open spec fn pview(p: Package) -> PackageV
    decreases p,
{
    PackageV {
        name: p.name@,
        rect: p.rect,
        packages: pviews(p.packages@),
        buildings: bviews(p.buildings@),
    }
}

pub open spec fn pviews(s: Seq<Package>) -> Seq<PackageV>
    decreases s,
{
    if s.len() == 0 {
        Seq::empty()
    } else {
        seq![pview(s[0])] + pviews(s.drop_first())
    }
}

/// `pviews` maps `pview` over the sequence, element by element.
pub proof fn lemma_pviews(s: Seq<Package>)
    ensures
        pviews(s).len() == s.len(),
        forall|i: int| 0 <= i < s.len() ==> pviews(s)[i] == pview(s[i]),
    decreases s,
{
    if s.len() > 0 {
        lemma_pviews(s.drop_first());
    }
}

pub open spec fn imax(a: int, b: int) -> int {
    if a >= b {
        a
    } else {
        b
    }
}

/// The greatest height among a sequence of buildings, zero if there are none.
pub open spec fn blds_hmax(s: Seq<BuildingV>) -> int
    decreases s.len(),
{
    if s.len() == 0 {
        0
    } else {
        imax(blds_hmax(s.drop_last()), s.last().height as int)
    }
}

/// The greatest height among a sequence of packages, zero if there are none.
pub open spec fn pkgs_hmax(s: Seq<PackageV>) -> int
    decreases s,
{
    if s.len() == 0 {
        0
    } else {
        imax(pkgs_hmax(s.drop_last()), pkg_height(s.last()))
    }
}

/// The height of a package: one for the package itself, plus the tallest of
/// its buildings and child packages.
pub open spec fn pkg_height(p: PackageV) -> int
    decreases p,
{
    1 + imax(blds_hmax(p.buildings), pkgs_hmax(p.packages))
}

/// Every package's height bounds the heights of its elements.
pub proof fn lemma_pkgs_hmax_elt(s: Seq<PackageV>, j: int)
    requires
        0 <= j < s.len(),
    ensures
        pkg_height(s[j]) <= pkgs_hmax(s),
    decreases s,
{
    if j == s.len() - 1 {
    } else {
        lemma_pkgs_hmax_elt(s.drop_last(), j);
    }
}

pub proof fn lemma_blds_hmax_elt(s: Seq<BuildingV>, j: int)
    requires
        0 <= j < s.len(),
    ensures
        s[j].height <= blds_hmax(s),
    decreases s.len(),
{
    if j < s.len() - 1 {
        lemma_blds_hmax_elt(s.drop_last(), j);
    }
}

pub proof fn lemma_blds_hmax_nonneg(b: Seq<BuildingV>)
    ensures
        blds_hmax(b) >= 0,
    decreases b.len(),
{
    if b.len() > 0 {
        lemma_blds_hmax_nonneg(b.drop_last());
    }
}

pub proof fn lemma_pkgs_hmax_nonneg(p: Seq<PackageV>)
    ensures
        pkgs_hmax(p) >= 0,
    decreases p,
{
    if p.len() > 0 {
        lemma_pkgs_hmax_nonneg(p.drop_last());
        lemma_blds_hmax_nonneg(p.last().buildings);
        lemma_pkgs_hmax_nonneg(p.last().packages);
    }
}

/// Insert `x` into the descending-sorted `s`, behind every element whose key
/// is at least `key(x)`: the stable insertion position.
pub open spec fn insert_desc<T>(s: Seq<T>, x: T, key: spec_fn(T) -> int) -> Seq<T>
    decreases s.len(),
{
    if s.len() == 0 {
        seq![x]
    } else if key(s.last()) >= key(x) {
        s.push(x)
    } else {
        insert_desc(s.drop_last(), x, key).push(s.last())
    }
}

/// Stable sort by descending key: insert the elements one by one, in order.
/// Elements of equal key keep their original relative order.
pub open spec fn sort_desc<T>(s: Seq<T>, key: spec_fn(T) -> int) -> Seq<T>
    decreases s.len(),
{
    if s.len() == 0 {
        s
    } else {
        insert_desc(sort_desc(s.drop_last(), key), s.last(), key)
    }
}

pub open spec fn sorted_desc<T>(s: Seq<T>, key: spec_fn(T) -> int) -> bool {
    forall|i: int, j: int| 0 <= i < j < s.len() ==> #[trigger] key(s[i]) >= #[trigger] key(s[j])
}

/// Where the stable insertion lands: `x` goes at index `k`, splitting `s`.
pub proof fn lemma_insert_desc_split<T>(s: Seq<T>, x: T, key: spec_fn(T) -> int) -> (k: int)
    requires
        sorted_desc(s, key),
    ensures
        0 <= k <= s.len(),
        insert_desc(s, x, key) =~= s.take(k) + seq![x] + s.skip(k),
        forall|m: int| k <= m < s.len() ==> key(s[m]) < key(x),
        k > 0 ==> key(s[k - 1]) >= key(x),
    decreases s.len(),
{
    if s.len() == 0 {
        assert(insert_desc(s, x, key) =~= s.take(0) + seq![x] + s.skip(0));
        0
    } else if key(s.last()) >= key(x) {
        assert(insert_desc(s, x, key) =~= s.take(s.len() as int) + seq![x] + s.skip(
            s.len() as int,
        ));
        s.len() as int
    } else {
        let dl = s.drop_last();
        assert(sorted_desc(dl, key)) by {
            assert(forall|i: int, j: int|
                0 <= i < j < dl.len() ==> #[trigger] key(dl[i]) >= #[trigger] key(dl[j])) by {
                assert(forall|i: int| 0 <= i < dl.len() ==> dl[i] == s[i]);
            }
        }
        let k = lemma_insert_desc_split(dl, x, key);
        assert(insert_desc(s, x, key) =~= s.take(k) + seq![x] + s.skip(k)) by {
            assert(insert_desc(s, x, key) == insert_desc(dl, x, key).push(s.last()));
            assert(insert_desc(dl, x, key) =~= dl.take(k) + seq![x] + dl.skip(k));
            assert(dl.take(k) =~= s.take(k));
        }
        assert forall|m: int| k <= m < s.len() implies key(s[m]) < key(x) by {
            if m < s.len() - 1 {
                assert(s[m] == dl[m]);
            } else {
                assert(s[m] == s.last());
            }
        }
        k
    }
}

/// Stable insertion keeps the sequence sorted.
pub proof fn lemma_insert_desc_sorted<T>(s: Seq<T>, x: T, key: spec_fn(T) -> int)
    requires
        sorted_desc(s, key),
    ensures
        sorted_desc(insert_desc(s, x, key), key),
        insert_desc(s, x, key).len() == s.len() + 1,
{
    let k = lemma_insert_desc_split(s, x, key);
    let r = insert_desc(s, x, key);
    assert forall|i: int, j: int| 0 <= i < j < r.len() implies #[trigger] key(r[i])
        >= #[trigger] key(r[j]) by {
        if i < k {
            assert(r[i] == s[i]);
        } else if i == k {
            assert(r[i] == x);
        } else {
            assert(r[i] == s[i - 1]);
        }
        if j < k {
            assert(r[j] == s[j]);
        } else if j == k {
            assert(r[j] == x);
        } else {
            assert(r[j] == s[j - 1]);
        }
    }
}

/// Sorting yields a sorted sequence of the same length whose elements all
/// come from the input.
pub proof fn lemma_sort_desc_props<T>(s: Seq<T>, key: spec_fn(T) -> int)
    ensures
        sort_desc(s, key).len() == s.len(),
        sorted_desc(sort_desc(s, key), key),
        forall|i: int| 0 <= i < s.len() ==> s.contains(#[trigger] sort_desc(s, key)[i]),
    decreases s.len(),
{
    if s.len() > 0 {
        let dl = s.drop_last();
        lemma_sort_desc_props(dl, key);
        let t = sort_desc(dl, key);
        lemma_insert_desc_sorted(t, s.last(), key);
        let k = lemma_insert_desc_split(t, s.last(), key);
        let r = sort_desc(s, key);
        assert forall|i: int| 0 <= i < s.len() implies s.contains(#[trigger] r[i]) by {
            if i < k {
                assert(r[i] == t[i]);
                assert(dl.contains(t[i]));
                let j = choose|j: int| 0 <= j < dl.len() && dl[j] == t[i];
                assert(s[j] == t[i]);
            } else if i == k {
                assert(r[i] == s.last());
                assert(s[s.len() - 1] == s.last());
            } else {
                assert(r[i] == t[i - 1]);
                assert(dl.contains(t[i - 1]));
                let j = choose|j: int| 0 <= j < dl.len() && dl[j] == t[i - 1];
                assert(s[j] == t[i - 1]);
            }
        }
    }
}

/// The elements whose key is exactly `k`.
pub open spec fn key_is<T>(key: spec_fn(T) -> int, k: int) -> spec_fn(T) -> bool {
    |e: T| key(e) == k
}

/// Stable insertion keeps each key's subsequence intact: filtering by any
/// one key commutes with the insertion.
pub proof fn lemma_insert_desc_filter<T>(t: Seq<T>, x: T, key: spec_fn(T) -> int, k: int)
    ensures
        insert_desc(t, x, key).filter(key_is(key, k)) == if key(x) == k {
            t.filter(key_is(key, k)).push(x)
        } else {
            t.filter(key_is(key, k))
        },
    decreases t.len(),
{
    reveal(Seq::filter);
    let pred = key_is(key, k);
    if t.len() == 0 {
        assert(insert_desc(t, x, key) == seq![x]);
        assert(seq![x].drop_last() =~= Seq::<T>::empty());
        assert(seq![x].last() == x);
        assert(Seq::<T>::empty().filter(pred) =~= Seq::<T>::empty());
        assert(t.filter(pred) =~= Seq::<T>::empty());
        if pred(x) {
            assert(seq![x].filter(pred) =~= t.filter(pred).push(x));
        } else {
            assert(seq![x].filter(pred) =~= t.filter(pred));
        }
    } else if key(t.last()) >= key(x) {
        assert(insert_desc(t, x, key) == t.push(x));
        assert(t.push(x).drop_last() =~= t);
        assert(t.push(x).last() == x);
    } else {
        lemma_insert_desc_filter(t.drop_last(), x, key, k);
        let u = insert_desc(t.drop_last(), x, key);
        assert(insert_desc(t, x, key) == u.push(t.last()));
        assert(u.push(t.last()).drop_last() =~= u);
        assert(u.push(t.last()).last() == t.last());
        if key(x) == k {
            assert(!pred(t.last()));
            assert(u.filter(pred) == t.drop_last().filter(pred).push(x));
            assert(t.filter(pred) == t.drop_last().filter(pred));
        }
    }
}

/// The tie-break law: the sort is stable — among the elements of any one
/// key, the sorted sequence keeps the input's order, since filtering by
/// that key commutes with sorting.
pub proof fn lemma_sort_desc_stable<T>(s: Seq<T>, key: spec_fn(T) -> int, k: int)
    ensures
        sort_desc(s, key).filter(key_is(key, k)) == s.filter(key_is(key, k)),
    decreases s.len(),
{
    reveal(Seq::filter);
    if s.len() > 0 {
        lemma_sort_desc_stable(s.drop_last(), key, k);
        lemma_insert_desc_filter(sort_desc(s.drop_last(), key), s.last(), key, k);
    }
}

/// The sort key of a package: its footprint area.
pub open spec fn pkeyf() -> spec_fn(PackageV) -> int {
    |p: PackageV| p.rect.width * p.rect.depth
}

/// The sort key of a building: its footprint area.
pub open spec fn bkeyf() -> spec_fn(BuildingV) -> int {
    |b: BuildingV| b.rect.width * b.rect.depth
}

/// The state a packing pass starts from: the package's current footprint,
/// an exhausted shelf, and the cursor just inside the border.
pub open spec fn init_state(r: Rect) -> PackState {
    PackState {
        width: r.width,
        depth: r.depth,
        free_w: 0,
        free_d: 0,
        cur_w: 1,
        cur_d: 1,
        dir: Direction::Width,
    }
}

/// Place a sequence of rectangles one after the other, or report that some
/// step would overflow the bounding box arithmetic.
pub open spec fn place_rects(rs: Seq<Rect>, s: PackState) -> Option<(Seq<Rect>, PackState)>
    decreases rs.len(),
{
    if rs.len() == 0 {
        Option::Some((rs, s))
    } else if !fits_bound(rs[0], s) {
        Option::None
    } else {
        let stepped = place_step(rs[0], s);
        match place_rects(rs.drop_first(), stepped.1) {
            Option::None => Option::None,
            Option::Some(rest) => Option::Some((seq![stepped.0] + rest.0, rest.1)),
        }
    }
}

/// Prepend already-placed rectangles to the outcome of placing the rest.
pub open spec fn place_compose(prefix: Seq<Rect>, o: Option<(Seq<Rect>, PackState)>) -> Option<
    (Seq<Rect>, PackState),
> {
    match o {
        Option::None => Option::None,
        Option::Some(rest) => Option::Some((prefix + rest.0, rest.1)),
    }
}

pub open spec fn prects(s: Seq<PackageV>) -> Seq<Rect> {
    Seq::new(s.len(), |i: int| s[i].rect)
}

pub open spec fn brects(s: Seq<BuildingV>) -> Seq<Rect> {
    Seq::new(s.len(), |i: int| s[i].rect)
}

pub open spec fn set_prects(s: Seq<PackageV>, rs: Seq<Rect>) -> Seq<PackageV> {
    Seq::new(s.len(), |i: int| PackageV { rect: rs[i], ..s[i] })
}

pub open spec fn set_brects(s: Seq<BuildingV>, rs: Seq<Rect>) -> Seq<BuildingV> {
    Seq::new(s.len(), |i: int| BuildingV { rect: rs[i], ..s[i] })
}

/// What one packing pass does to a package: pack every child package first,
/// then place the child packages and the buildings, each sorted by
/// descending area, and take the final bounding box as the new footprint.
/// `None` reports that a bounding box would outgrow `u16`.
pub open spec fn pack_spec(p: PackageV) -> Option<PackageV>
    decreases p,
{
    match pack_children(p.packages) {
        Option::None => Option::None,
        Option::Some(kids) => {
            let sk = sort_desc(kids, pkeyf());
            let sb = sort_desc(p.buildings, bkeyf());
            match place_rects(prects(sk), init_state(p.rect)) {
                Option::None => Option::None,
                Option::Some(placed_p) => match place_rects(brects(sb), placed_p.1) {
                    Option::None => Option::None,
                    Option::Some(placed_b) => Option::Some(
                        PackageV {
                            name: p.name,
                            rect: (Rect {
                                width: placed_b.1.width,
                                depth: placed_b.1.depth,
                                ..p.rect
                            }),
                            packages: set_prects(sk, placed_p.0),
                            buildings: set_brects(sb, placed_b.0),
                        },
                    ),
                },
            }
        },
    }
}

pub open spec fn pack_children(s: Seq<PackageV>) -> Option<Seq<PackageV>>
    decreases s,
{
    if s.len() == 0 {
        Option::Some(s)
    } else {
        match (pack_spec(s[0]), pack_children(s.drop_first())) {
            (Option::Some(h), Option::Some(t)) => Option::Some(seq![h] + t),
            _ => Option::None,
        }
    }
}

pub open spec fn pkg_sizes_ok(p: PackageV) -> bool {
    p.rect.width >= 1 && p.rect.depth >= 1
}

pub open spec fn bld_sizes_ok(b: BuildingV) -> bool {
    b.rect.width >= 1 && b.rect.depth >= 1
}

/// Every footprint in the tree has a width and a depth of at least one.
pub open spec fn tree_wf(p: PackageV) -> bool
    decreases p,
{
    &&& p.rect.width >= 1
    &&& p.rect.depth >= 1
    &&& forall|i: int|
        0 <= i < p.buildings.len() ==> (#[trigger] p.buildings[i]).rect.width >= 1
            && p.buildings[i].rect.depth >= 1
    &&& forall|i: int| 0 <= i < p.packages.len() ==> tree_wf(#[trigger] p.packages[i])
}

/// The placed footprints of a package's immediate children: its child
/// packages followed by its buildings.
pub open spec fn child_rects(p: PackageV) -> Seq<Rect> {
    prects(p.packages) + brects(p.buildings)
}

/// The tree is packed: in every package, the immediate children are pairwise
/// disjoint and lie inside the package's own footprint, clear of the border.
pub open spec fn packed_wf(p: PackageV) -> bool
    decreases p,
{
    &&& forall|i: int, j: int|
        0 <= i < j < child_rects(p).len() ==> rect_disjoint(
            #[trigger] child_rects(p)[i],
            #[trigger] child_rects(p)[j],
        )
    &&& forall|i: int|
        0 <= i < child_rects(p).len() ==> rect_in(
            #[trigger] child_rects(p)[i],
            p.rect.width as int,
            p.rect.depth as int,
        )
    &&& forall|i: int| 0 <= i < p.packages.len() ==> packed_wf(#[trigger] p.packages[i])
}

/// A whole placement pass cannot disturb a rectangle placed before it.
pub proof fn lemma_place_rects_q(rs: Seq<Rect>, s: PackState, q: Rect)
    requires
        state_wf(s),
        forall|i: int|
            0 <= i < rs.len() ==> (#[trigger] rs[i]).width >= 1 && rs[i].depth >= 1,
        place_rects(rs, s) is Some,
        rect_in(q, s.width as int, s.depth as int),
        zone_clear(q, s),
    ensures
        ({
            let (rs2, s2) = place_rects(rs, s).unwrap();
            &&& rect_in(q, s2.width as int, s2.depth as int)
            &&& zone_clear(q, s2)
            &&& forall|i: int| 0 <= i < rs2.len() ==> rect_disjoint(q, #[trigger] rs2[i])
        }),
    decreases rs.len(),
{
    if rs.len() > 0 {
        let stepped = place_step(rs[0], s);
        lemma_place_step(rs[0], s);
        lemma_place_step_old(rs[0], s, q);
        assert(forall|i: int|
            0 <= i < rs.drop_first().len() ==> (#[trigger] rs.drop_first()[i]).width >= 1
                && rs.drop_first()[i].depth >= 1);
        lemma_place_rects_q(rs.drop_first(), stepped.1, q);
        let rest = place_rects(rs.drop_first(), stepped.1).unwrap();
        let (rs2, s2) = place_rects(rs, s).unwrap();
        assert(rs2 == seq![stepped.0] + rest.0);
        assert forall|i: int| 0 <= i < rs2.len() implies rect_disjoint(q, #[trigger] rs2[i]) by {
            if i == 0 {
                assert(rs2[i] == stepped.0);
            } else {
                assert(rs2[i] == rest.0[i - 1]);
            }
        }
    }
}

/// A whole placement pass keeps the state well formed and only grows the box;
/// the rectangles it places keep their sizes, land inside the final box,
/// clear its final shelf zone, and are pairwise disjoint.
pub proof fn lemma_place_rects(rs: Seq<Rect>, s: PackState)
    requires
        state_wf(s),
        forall|i: int|
            0 <= i < rs.len() ==> (#[trigger] rs[i]).width >= 1 && rs[i].depth >= 1,
        place_rects(rs, s) is Some,
    ensures
        ({
            let (rs2, s2) = place_rects(rs, s).unwrap();
            &&& state_wf(s2)
            &&& s.width <= s2.width
            &&& s.depth <= s2.depth
            &&& rs2.len() == rs.len()
            &&& forall|i: int|
                0 <= i < rs2.len() ==> (#[trigger] rs2[i]).width == rs[i].width && rs2[i].depth
                    == rs[i].depth
            &&& forall|i: int|
                0 <= i < rs2.len() ==> rect_in(
                    #[trigger] rs2[i],
                    s2.width as int,
                    s2.depth as int,
                ) && zone_clear(rs2[i], s2)
            &&& forall|i: int, j: int|
                0 <= i < j < rs2.len() ==> rect_disjoint(#[trigger] rs2[i], #[trigger] rs2[j])
        }),
    decreases rs.len(),
{
    if rs.len() > 0 {
        let stepped = place_step(rs[0], s);
        lemma_place_step(rs[0], s);
        assert(forall|i: int|
            0 <= i < rs.drop_first().len() ==> (#[trigger] rs.drop_first()[i]).width >= 1
                && rs.drop_first()[i].depth >= 1);
        lemma_place_rects(rs.drop_first(), stepped.1);
        lemma_place_rects_q(rs.drop_first(), stepped.1, stepped.0);
        let rest = place_rects(rs.drop_first(), stepped.1).unwrap();
        let (rs2, s2) = place_rects(rs, s).unwrap();
        assert(rs2 == seq![stepped.0] + rest.0);
        assert forall|i: int, j: int| 0 <= i < j < rs2.len() implies rect_disjoint(
            #[trigger] rs2[i],
            #[trigger] rs2[j],
        ) by {
            if i == 0 {
                assert(rs2[j] == rest.0[j - 1]);
                assert(rect_disjoint(stepped.0, rs2[j]));
            } else {
                assert(rs2[i] == rest.0[i - 1]);
                assert(rs2[j] == rest.0[j - 1]);
            }
        }
        assert forall|i: int| 0 <= i < rs2.len() implies (#[trigger] rs2[i]).width == rs[i].width
            && rs2[i].depth == rs[i].depth by {
            if i > 0 {
                assert(rs2[i] == rest.0[i - 1]);
                assert(rs.drop_first()[i - 1] == rs[i]);
            }
        }
        assert forall|i: int| 0 <= i < rs2.len() implies rect_in(
            #[trigger] rs2[i],
            s2.width as int,
            s2.depth as int,
        ) && zone_clear(rs2[i], s2) by {
            if i > 0 {
                assert(rs2[i] == rest.0[i - 1]);
            }
        }
    }
}

/// Packing the children succeeds exactly when packing each child succeeds,
/// and then packs them element by element.
pub proof fn lemma_pack_children(s: Seq<PackageV>)
    ensures
        pack_children(s) is Some <==> (forall|i: int|
            0 <= i < s.len() ==> pack_spec(#[trigger] s[i]) is Some),
        pack_children(s) is Some ==> pack_children(s).unwrap().len() == s.len() && (forall|i: int|
            0 <= i < s.len() ==> #[trigger] pack_children(s).unwrap()[i] == pack_spec(
                s[i],
            ).unwrap()),
    decreases s,
{
    if s.len() > 0 {
        lemma_pack_children(s.drop_first());
        assert(forall|i: int| 0 <= i < s.drop_first().len() ==> #[trigger] s.drop_first()[i]
            == s[i + 1]);
        if forall|i: int| 0 <= i < s.len() ==> pack_spec(#[trigger] s[i]) is Some {
            assert(pack_spec(s[0]) is Some);
            assert forall|i: int|
                0 <= i < s.drop_first().len() implies pack_spec(
                #[trigger] s.drop_first()[i],
            ) is Some by {
                assert(pack_spec(s[i + 1]) is Some);
            }
            assert(pack_children(s.drop_first()) is Some);
        }
        if pack_children(s) is Some {
            let t = pack_children(s.drop_first()).unwrap();
            assert(pack_children(s).unwrap() == seq![pack_spec(s[0]).unwrap()] + t);
            assert forall|i: int| 0 <= i < s.len() implies pack_spec(#[trigger] s[i]) is Some by {
                if i > 0 {
                    assert(s.drop_first()[i - 1] == s[i]);
                    assert(pack_spec(s.drop_first()[i - 1]) is Some);
                }
            }
        }
    }
}

/// The non-overlap law: packing a well-formed tree leaves, in every package,
/// pairwise disjoint immediate children that lie inside the package's own
/// footprint; the tree stays well formed, and the package's name and
/// position are untouched while its footprint only grows.
pub proof fn lemma_pack_spec_packed(p: PackageV)
    requires
        tree_wf(p),
        pack_spec(p) is Some,
    ensures
        ({
            let q = pack_spec(p).unwrap();
            &&& packed_wf(q)
            &&& tree_wf(q)
            &&& q.name == p.name
            &&& q.rect.pos_w == p.rect.pos_w
            &&& q.rect.pos_d == p.rect.pos_d
            &&& p.rect.width <= q.rect.width
            &&& p.rect.depth <= q.rect.depth
        }),
    decreases p,
{
    let q = pack_spec(p).unwrap();
    lemma_pack_children(p.packages);
    let kids = pack_children(p.packages).unwrap();
    assert forall|i: int| 0 <= i < kids.len() implies tree_wf(#[trigger] kids[i]) && packed_wf(
        kids[i],
    ) && kids[i].rect.width >= 1 && kids[i].rect.depth >= 1 by {
        assert(tree_wf(p.packages[i]));
        lemma_pack_spec_packed(p.packages[i]);
    }
    let sk = sort_desc(kids, pkeyf());
    let sb = sort_desc(p.buildings, bkeyf());
    lemma_sort_desc_props(kids, pkeyf());
    lemma_sort_desc_props(p.buildings, bkeyf());
    assert forall|i: int| 0 <= i < sk.len() implies tree_wf(#[trigger] sk[i]) && packed_wf(sk[i])
        && sk[i].rect.width >= 1 && sk[i].rect.depth >= 1 by {
        assert(kids.contains(sk[i]));
        let j = choose|j: int| 0 <= j < kids.len() && kids[j] == sk[i];
        assert(tree_wf(kids[j]));
    }
    assert forall|i: int| 0 <= i < sb.len() implies (#[trigger] sb[i]).rect.width >= 1
        && sb[i].rect.depth >= 1 by {
        assert(p.buildings.contains(sb[i]));
        let j = choose|j: int| 0 <= j < p.buildings.len() && p.buildings[j] == sb[i];
        assert(p.buildings[j].rect.width >= 1);
    }
    let s0 = init_state(p.rect);
    let placed_p = place_rects(prects(sk), s0).unwrap();
    let placed_b = place_rects(brects(sb), placed_p.1).unwrap();
    lemma_place_rects(prects(sk), s0);
    lemma_place_rects(brects(sb), placed_p.1);
    assert forall|i: int| 0 <= i < placed_p.0.len() implies rect_in(
        #[trigger] placed_p.0[i],
        placed_b.1.width as int,
        placed_b.1.depth as int,
    ) && (forall|j: int|
        0 <= j < placed_b.0.len() ==> rect_disjoint(placed_p.0[i], #[trigger] placed_b.0[j])) by {
        lemma_place_rects_q(brects(sb), placed_p.1, placed_p.0[i]);
    }
    assert(child_rects(q) =~= placed_p.0 + placed_b.0);
    assert forall|i: int, j: int| 0 <= i < j < child_rects(q).len() implies rect_disjoint(
        #[trigger] child_rects(q)[i],
        #[trigger] child_rects(q)[j],
    ) by {
        let n = placed_p.0.len();
        if j < n {
        } else if i >= n {
            assert(child_rects(q)[i] == placed_b.0[i - n]);
            assert(child_rects(q)[j] == placed_b.0[j - n]);
        } else {
            assert(child_rects(q)[i] == placed_p.0[i]);
            assert(child_rects(q)[j] == placed_b.0[j - n]);
        }
    }
    assert forall|i: int| 0 <= i < q.packages.len() implies packed_wf(
        #[trigger] q.packages[i],
    ) && tree_wf(q.packages[i]) by {
        assert(q.packages[i] == (PackageV { rect: placed_p.0[i], ..sk[i] }));
        assert(placed_p.0[i].width == sk[i].rect.width);
        assert(placed_p.0[i].depth == sk[i].rect.depth);
        assert(packed_wf(sk[i]));
        assert(tree_wf(sk[i]));
        assert(child_rects(q.packages[i]) =~= child_rects(sk[i]));
        assert(forall|m: int|
            0 <= m < q.packages[i].packages.len() ==> #[trigger] q.packages[i].packages[m]
                == sk[i].packages[m]);
        assert(forall|m: int|
            0 <= m < q.packages[i].buildings.len() ==> #[trigger] q.packages[i].buildings[m]
                == sk[i].buildings[m]);
    }
}

/// The index of the first child with the given name, or `-1` if there is none.
pub open spec fn find_child(s: Seq<PackageV>, name: Seq<char>) -> int
    decreases s.len(),
{
    if s.len() == 0 {
        -1
    } else if s[0].name == name {
        0
    } else if find_child(s.drop_first(), name) < 0 {
        -1
    } else {
        1 + find_child(s.drop_first(), name)
    }
}

pub proof fn lemma_find_child(s: Seq<PackageV>, name: Seq<char>)
    ensures
        find_child(s, name) < 0 ==> forall|j: int| 0 <= j < s.len() ==> (#[trigger] s[j]).name != name,
        find_child(s, name) >= 0 ==> 0 <= find_child(s, name) < s.len() && s[find_child(
            s,
            name,
        )].name == name && (forall|j: int|
            0 <= j < find_child(s, name) ==> (#[trigger] s[j]).name != name),
    decreases s.len(),
{
    if s.len() > 0 {
        let t = s.drop_first();
        lemma_find_child(t, name);
        assert(forall|j: int| 0 <= j < t.len() ==> #[trigger] t[j] == s[j + 1]);
        if s[0].name != name {
            let r = find_child(t, name);
            if r < 0 {
                assert forall|j: int| 0 <= j < s.len() implies (#[trigger] s[j]).name != name by {
                    if j > 0 {
                        assert(t[j - 1].name != name);
                    }
                }
            } else {
                assert(find_child(s, name) == 1 + r);
                assert(s[1 + r] == t[r]);
                assert forall|j: int| 0 <= j < 1 + r implies (#[trigger] s[j]).name != name by {
                    if j > 0 {
                        assert(t[j - 1].name != name);
                    }
                }
            }
        }
    }
}

/// A fresh package's image: the given name over a one-by-one footprint.
pub open spec fn fresh_pkg(name: Seq<char>) -> PackageV {
    PackageV {
        name: name,
        rect: (Rect { width: 1, depth: 1, pos_w: 0, pos_d: 0 }),
        packages: Seq::empty(),
        buildings: Seq::empty(),
    }
}

/// What inserting a building at a path does to the tree: on the last path
/// segment the building is appended here; otherwise the walk continues into
/// the first child of the segment's name, created fresh if absent.
pub open spec fn add_spec(p: PackageV, names: Seq<Seq<char>>, i: int, b: BuildingV) -> PackageV
    decreases names.len() - i,
{
    if i >= names.len() - 1 {
        PackageV { buildings: p.buildings.push(b), ..p }
    } else {
        let j = find_child(p.packages, names[i]);
        if j >= 0 {
            PackageV { packages: p.packages.update(j, add_spec(p.packages[j], names, i + 1, b)), ..p }
        } else {
            PackageV {
                packages: p.packages.push(add_spec(fresh_pkg(names[i]), names, i + 1, b)),
                ..p
            }
        }
    }
}

/// Inserting a well-sized building keeps every footprint in the tree well
/// sized.
pub proof fn lemma_add_spec_wf(p: PackageV, names: Seq<Seq<char>>, i: int, b: BuildingV)
    requires
        tree_wf(p),
        bld_sizes_ok(b),
        0 <= i < names.len(),
    ensures
        tree_wf(add_spec(p, names, i, b)),
    decreases names.len() - i,
{
    let q = add_spec(p, names, i, b);
    if i >= names.len() - 1 {
        assert(forall|m: int|
            0 <= m < q.buildings.len() - 1 ==> #[trigger] q.buildings[m] == p.buildings[m]);
    } else {
        let j = find_child(p.packages, names[i]);
        if j >= 0 {
            lemma_find_child(p.packages, names[i]);
            lemma_add_spec_wf(p.packages[j], names, i + 1, b);
            assert(forall|m: int|
                0 <= m < q.packages.len() && m != j ==> #[trigger] q.packages[m] == p.packages[m]);
        } else {
            lemma_add_spec_wf(fresh_pkg(names[i]), names, i + 1, b);
            assert(forall|m: int|
                0 <= m < q.packages.len() - 1 ==> #[trigger] q.packages[m] == p.packages[m]);
        }
    }
}

/// No two sibling packages anywhere in the tree share a name.
pub open spec fn names_unique(p: PackageV) -> bool
    decreases p,
{
    &&& forall|i: int, j: int|
        0 <= i < j < p.packages.len() ==> (#[trigger] p.packages[i]).name
            != (#[trigger] p.packages[j]).name
    &&& forall|i: int| 0 <= i < p.packages.len() ==> names_unique(#[trigger] p.packages[i])
}

/// The builder law: inserting a building never makes two sibling packages
/// share a name, since a child package is created only when no child of that
/// name exists yet.
pub proof fn lemma_add_spec_unique(p: PackageV, names: Seq<Seq<char>>, i: int, b: BuildingV)
    requires
        names_unique(p),
        0 <= i < names.len(),
    ensures
        names_unique(add_spec(p, names, i, b)),
    decreases names.len() - i,
{
    let q = add_spec(p, names, i, b);
    if i >= names.len() - 1 {
    } else {
        let j = find_child(p.packages, names[i]);
        lemma_find_child(p.packages, names[i]);
        if j >= 0 {
            lemma_add_spec_unique(p.packages[j], names, i + 1, b);
            assert(q.packages[j].name == p.packages[j].name);
            assert(forall|m: int|
                0 <= m < q.packages.len() && m != j ==> #[trigger] q.packages[m] == p.packages[m]);
        } else {
            lemma_add_spec_unique(fresh_pkg(names[i]), names, i + 1, b);
            assert(forall|m: int|
                0 <= m < q.packages.len() - 1 ==> #[trigger] q.packages[m] == p.packages[m]);
            assert(q.packages[q.packages.len() - 1].name == names[i]);
        }
    }
}

/// The height law: a package's height is always at least one; when its
/// buildings all have positive height, the height is exactly one just when
/// the package has no children and no buildings at all.
pub proof fn lemma_height_law(p: PackageV)
    ensures
        pkg_height(p) >= 1,
        (forall|i: int| 0 <= i < p.buildings.len() ==> (#[trigger] p.buildings[i]).height >= 1)
            ==> (pkg_height(p) == 1 <==> p.packages.len() == 0 && p.buildings.len() == 0),
{
    lemma_blds_hmax_nonneg(p.buildings);
    lemma_pkgs_hmax_nonneg(p.packages);
    if p.buildings.len() > 0 {
        lemma_blds_hmax_elt(p.buildings, p.buildings.len() - 1);
    }
    if p.packages.len() > 0 {
        lemma_pkgs_hmax_elt(p.packages, p.packages.len() - 1);
        lemma_blds_hmax_nonneg(p.packages.last().buildings);
        lemma_pkgs_hmax_nonneg(p.packages.last().packages);
    }
}

/// Inserting one element commutes from sequences of packages to their views.
proof fn lemma_pviews_insert(s: Seq<Package>, k: int, x: Package)
    requires
        0 <= k <= s.len(),
    ensures
        pviews(s.insert(k, x)) =~= pviews(s).insert(k, pview(x)),
{
    lemma_pviews(s);
    lemma_pviews(s.insert(k, x));
}

proof fn lemma_bviews_insert(s: Seq<Building>, k: int, x: Building)
    requires
        0 <= k <= s.len(),
    ensures
        bviews(s.insert(k, x)) =~= bviews(s).insert(k, bview(x)),
{
}

proof fn lemma_pviews_update(s: Seq<Package>, k: int, x: Package)
    requires
        0 <= k < s.len(),
    ensures
        pviews(s.update(k, x)) =~= pviews(s).update(k, pview(x)),
{
    lemma_pviews(s);
    lemma_pviews(s.update(k, x));
}

proof fn lemma_pviews_push(s: Seq<Package>, x: Package)
    ensures
        pviews(s.push(x)) =~= pviews(s).push(pview(x)),
{
    lemma_pviews(s);
    lemma_pviews(s.push(x));
}

/// The footprint area of a package, as the sort key sees it.
pub open spec fn parea(p: Package) -> int {
    p.rect.width * p.rect.depth
}

/// The footprint area of a building, as the sort key sees it.
pub open spec fn barea(b: Building) -> int {
    b.rect.width * b.rect.depth
}

/// Sort the packages by descending footprint area; packages of equal area
/// keep their relative order.
fn sort_packages(v: &mut Vec<Package>)
    ensures
        pviews(final(v)@) == sort_desc(pviews(old(v)@), pkeyf()),
{
    let ghost input = old(v)@;
    let mut out: Vec<Package> = Vec::new();
    let ghost mut k: int = 0;
    proof {
        assert(pviews(input.take(0)) =~= Seq::<PackageV>::empty());
    }
    while v.len() > 0
        invariant
            0 <= k <= input.len(),
            v@ =~= input.skip(k),
            pviews(out@) == sort_desc(pviews(input.take(k)), pkeyf()),
            sorted_desc(pviews(out@), pkeyf()),
        decreases v.len(),
    {
        let item = v.remove(0);
        proof {
            assert(item == input[k]);
            assert(v@ =~= input.skip(k + 1));
        }
        let a_item = item.rect.area();
        let mut kk: usize = out.len();
        while kk > 0
            invariant_except_break
                kk <= out@.len(),
                a_item == parea(item),
                forall|m: int|
                    kk <= m < out@.len() ==> pkeyf()(pview(#[trigger] out@[m])) < pkeyf()(
                        pview(item),
                    ),
            ensures
                kk <= out@.len(),
                forall|m: int|
                    kk <= m < out@.len() ==> pkeyf()(pview(#[trigger] out@[m])) < pkeyf()(
                        pview(item),
                    ),
                kk > 0 ==> pkeyf()(pview(out@[kk - 1])) >= pkeyf()(pview(item)),
            decreases kk,
        {
            let a = out[kk - 1].rect.area();
            if a >= a_item {
                break ;
            }
            kk = kk - 1;
        }
        proof {
            let ov = pviews(out@);
            lemma_pviews(out@);
            let kc = lemma_insert_desc_split(ov, pview(item), pkeyf());
            assert(kc == kk) by {
                if kc < kk {
                    assert(pkeyf()(ov[kk - 1]) < pkeyf()(pview(item)));
                    assert(ov[kk - 1] == pview(out@[kk - 1]));
                } else if kc > kk {
                    assert(pkeyf()(ov[kc - 1]) >= pkeyf()(pview(item)));
                    assert(ov[kc - 1] == pview(out@[kc - 1]));
                }
            }
            assert(insert_desc(ov, pview(item), pkeyf()) =~= ov.insert(kk as int, pview(item)))
                by {
                assert(insert_desc(ov, pview(item), pkeyf()) =~= ov.take(kc) + seq![pview(item)]
                    + ov.skip(kc));
            }
            lemma_insert_desc_sorted(ov, pview(item), pkeyf());
            lemma_pviews_insert(out@, kk as int, item);
            assert(pviews(input.take(k + 1)).drop_last() =~= pviews(input.take(k))) by {
                lemma_pviews(input.take(k + 1));
                lemma_pviews(input.take(k));
            }
            assert(pviews(input.take(k + 1)).last() == pview(item)) by {
                lemma_pviews(input.take(k + 1));
            }
        }
        out.insert(kk, item);
        proof {
            k = k + 1;
            assert(pviews(out@) =~= sort_desc(pviews(input.take(k)), pkeyf()));
        }
    }
    proof {
        assert(input.take(k) =~= input);
    }
    *v = out;
}

/// Sort the buildings by descending footprint area; buildings of equal area
/// keep their relative order.
fn sort_buildings(v: &mut Vec<Building>)
    ensures
        bviews(final(v)@) == sort_desc(bviews(old(v)@), bkeyf()),
{
    let ghost input = old(v)@;
    let mut out: Vec<Building> = Vec::new();
    let ghost mut k: int = 0;
    proof {
        assert(bviews(input.take(0)) =~= Seq::<BuildingV>::empty());
    }
    while v.len() > 0
        invariant
            0 <= k <= input.len(),
            v@ =~= input.skip(k),
            bviews(out@) == sort_desc(bviews(input.take(k)), bkeyf()),
            sorted_desc(bviews(out@), bkeyf()),
        decreases v.len(),
    {
        let item = v.remove(0);
        proof {
            assert(item == input[k]);
            assert(v@ =~= input.skip(k + 1));
        }
        let a_item = item.rect.area();
        let mut kk: usize = out.len();
        while kk > 0
            invariant_except_break
                kk <= out@.len(),
                a_item == barea(item),
                forall|m: int|
                    kk <= m < out@.len() ==> bkeyf()(bview(#[trigger] out@[m])) < bkeyf()(
                        bview(item),
                    ),
            ensures
                kk <= out@.len(),
                forall|m: int|
                    kk <= m < out@.len() ==> bkeyf()(bview(#[trigger] out@[m])) < bkeyf()(
                        bview(item),
                    ),
                kk > 0 ==> bkeyf()(bview(out@[kk - 1])) >= bkeyf()(bview(item)),
            decreases kk,
        {
            let a = out[kk - 1].rect.area();
            if a >= a_item {
                break ;
            }
            kk = kk - 1;
        }
        proof {
            let ov = bviews(out@);
            let kc = lemma_insert_desc_split(ov, bview(item), bkeyf());
            assert(kc == kk) by {
                if kc < kk {
                    assert(bkeyf()(ov[kk - 1]) < bkeyf()(bview(item)));
                    assert(ov[kk - 1] == bview(out@[kk - 1]));
                } else if kc > kk {
                    assert(bkeyf()(ov[kc - 1]) >= bkeyf()(bview(item)));
                    assert(ov[kc - 1] == bview(out@[kc - 1]));
                }
            }
            assert(insert_desc(ov, bview(item), bkeyf()) =~= ov.insert(kk as int, bview(item)))
                by {
                assert(insert_desc(ov, bview(item), bkeyf()) =~= ov.take(kc) + seq![bview(item)]
                    + ov.skip(kc));
            }
            lemma_insert_desc_sorted(ov, bview(item), bkeyf());
            lemma_bviews_insert(out@, kk as int, item);
            assert(bviews(input.take(k + 1)).drop_last() =~= bviews(input.take(k)));
            assert(bviews(input.take(k + 1)).last() == bview(item));
        }
        out.insert(kk, item);
        proof {
            k = k + 1;
            assert(bviews(out@) =~= sort_desc(bviews(input.take(k)), bkeyf()));
        }
    }
    proof {
        assert(input.take(k) =~= input);
    }
    *v = out;
}

impl Building {
    /// Where this building was placed inside its package.
    pub fn position(&self) -> (r: (u16, u16))
        ensures
            r == (self.rect.pos_w, self.rect.pos_d),
    {
        (self.rect.pos_w, self.rect.pos_d)
    }

    /// The footprint this building occupies.
    pub fn size(&self) -> (r: (u16, u16))
        ensures
            r == (self.rect.width, self.rect.depth),
    {
        (self.rect.width, self.rect.depth)
    }

    pub fn height(&self) -> (h: u16)
        ensures
            h == self.height,
    {
        self.height
    }
}

/// A building of the given name and footprint, with no height of its own,
/// as layout experiments use.
pub fn mock(name: &str, w: u16, d: u16) -> (b: Building)
    ensures
        bview(b) == (BuildingV {
            name: name@,
            rect: (Rect { width: w, depth: d, pos_w: 0, pos_d: 0 }),
            height: 0,
        }),
{
    Building { name: name.to_owned(), rect: Rect::new(w, d), height: 0 }
}

/// A one-by-one building of the given height, as height experiments use.
pub fn mockh(h: u16) -> (b: Building)
    ensures
        bview(b) == (BuildingV {
            name: "?"@,
            rect: (Rect { width: 1, depth: 1, pos_w: 0, pos_d: 0 }),
            height: h,
        }),
{
    Building { name: "?".to_owned(), rect: Rect::new(1, 1), height: h }
}

impl Package {
    /// A fresh, empty package with a one-by-one footprint.
    pub fn new(name: &str) -> (p: Package)
        ensures
            p.name@ == name@,
            p.rect == (Rect { width: 1, depth: 1, pos_w: 0, pos_d: 0 }),
            p.packages@.len() == 0,
            p.buildings@.len() == 0,
    {
        Package {
            name: name.to_owned(),
            rect: Rect::new(1, 1),
            packages: Vec::new(),
            buildings: Vec::new(),
        }
    }

    pub fn name(&self) -> (r: &String)
        ensures
            r@ == self.name@,
    {
        &self.name
    }

    /// The footprint this package occupies after packing.
    pub fn size(&self) -> (r: (u16, u16))
        ensures
            r == (self.rect.width, self.rect.depth),
    {
        (self.rect.width, self.rect.depth)
    }

    /// Where this package was placed inside its parent.
    pub fn position(&self) -> (r: (u16, u16))
        ensures
            r == (self.rect.pos_w, self.rect.pos_d),
    {
        (self.rect.pos_w, self.rect.pos_d)
    }

    /// The child packages, as references.
    pub fn packages(&self) -> (r: Vec<&Package>)
        ensures
            r@.len() == self.packages@.len(),
            forall|i: int| 0 <= i < r@.len() ==> r@[i] == self.packages@[i],
    {
        let mut out: Vec<&Package> = Vec::new();
        let mut i: usize = 0;
        while i < self.packages.len()
            invariant
                i <= self.packages.len(),
                out@.len() == i,
                forall|j: int| 0 <= j < i ==> out@[j] == self.packages@[j],
            decreases self.packages.len() - i,
        {
            out.push(&self.packages[i]);
            i = i + 1;
        }
        out
    }

    pub fn buildings(&self) -> (r: &Vec<Building>)
        ensures
            r@ == self.buildings@,
    {
        &self.buildings
    }

    /// The height of the city at this package: one per nesting level, plus
    /// the tallest building on top.
    pub fn height(&self) -> (h: u16)
        requires
            pkg_height(pview(*self)) <= u16::MAX,
        ensures
            h == pkg_height(pview(*self)),
        decreases *self,
    {
        let mut bld_h: u16 = 0;
        let mut i: usize = 0;
        while i < self.buildings.len()
            invariant
                i <= self.buildings.len(),
                bld_h == blds_hmax(bviews(self.buildings@).take(i as int)),
            decreases self.buildings.len() - i,
        {
            proof {
                let bv = bviews(self.buildings@);
                assert(bv.take(i + 1).drop_last() =~= bv.take(i as int));
                assert(bv.take(i + 1).last() == bview(self.buildings@[i as int]));
            }
            if self.buildings[i].height > bld_h {
                bld_h = self.buildings[i].height;
            }
            i = i + 1;
        }
        proof {
            assert(bviews(self.buildings@).take(self.buildings@.len() as int) =~= bviews(
                self.buildings@,
            ));
        }
        let mut pkg_h: u16 = 0;
        let mut j: usize = 0;
        while j < self.packages.len()
            invariant
                j <= self.packages.len(),
                pkg_height(pview(*self)) <= u16::MAX,
                pkg_h == pkgs_hmax(pviews(self.packages@).take(j as int)),
            decreases self.packages.len() - j,
        {
            proof {
                lemma_pviews(self.packages@);
                let pv = pviews(self.packages@);
                assert(pv.take(j + 1).drop_last() =~= pv.take(j as int));
                assert(pv.take(j + 1).last() == pview(self.packages@[j as int]));
                lemma_pkgs_hmax_elt(pv, j as int);
                lemma_blds_hmax_nonneg(pview(*self).buildings);
                lemma_pkgs_hmax_nonneg(pview(*self).packages);
            }
            let ch = &self.packages[j];
            let h = ch.height();
            if h > pkg_h {
                pkg_h = h;
            }
            j = j + 1;
        }
        proof {
            lemma_pviews(self.packages@);
            assert(pviews(self.packages@).take(self.packages@.len() as int) =~= pviews(
                self.packages@,
            ));
            lemma_blds_hmax_nonneg(pview(*self).buildings);
            lemma_pkgs_hmax_nonneg(pview(*self).packages);
        }
        let m = max_u16(bld_h, pkg_h);
        1 + m
    }

    /// Walk the path from segment `i` on, creating child packages as needed,
    /// and append the building at the final segment.
    fn add_at(&mut self, names: &Vec<String>, i: usize, building: Building)
        requires
            i < names@.len(),
        ensures
            pview(*final(self)) == add_spec(
                pview(*old(self)),
                names@.map_values(|n: String| n@),
                i as int,
                bview(building),
            ),
        decreases names@.len() - i,
    {
        let ghost orig = *old(self);
        let ghost nv = names@.map_values(|n: String| n@);
        if i == names.len() - 1 {
            self.buildings.push(building);
            proof {
                lemma_pviews(orig.packages@);
                lemma_pviews(self.packages@);
                assert(bviews(self.buildings@) =~= bviews(orig.buildings@).push(bview(building)));
                assert(pviews(self.packages@) =~= pviews(orig.packages@));
                assert(pview(*self) == add_spec(pview(orig), nv, i as int, bview(building)));
            }
        } else {
            let head = &names[i];
            let mut j: usize = 0;
            let n = self.packages.len();
            while j < n
                invariant
                    orig == *self,
                    i < names@.len(),
                    head@ == names@[i as int]@,
                    j <= n,
                    n == self.packages@.len(),
                    forall|m: int|
                        0 <= m < j ==> (#[trigger] self.packages@[m]).name@ != names@[i as int]@,
                ensures
                    orig == *self,
                    n == self.packages@.len(),
                    j <= n,
                    forall|m: int|
                        0 <= m < j ==> (#[trigger] self.packages@[m]).name@ != names@[i as int]@,
                    j < n ==> self.packages@[j as int].name@ == names@[i as int]@,
                decreases n - j,
            {
                if self.packages[j].name.eq(head) {
                    break ;
                }
                j = j + 1;
            }
            proof {
                lemma_pviews(orig.packages@);
                lemma_find_child(pview(orig).packages, nv[i as int]);
            }
            if j < n {
                proof {
                    let fc = find_child(pview(orig).packages, nv[i as int]);
                    assert(pview(orig).packages[j as int].name == nv[i as int]);
                    assert(fc >= 0);
                    assert(fc == j) by {
                        if fc < j {
                            assert(pview(orig).packages[fc] == pview(orig.packages@[fc]));
                        }
                        if fc > j {
                            assert(pview(orig).packages[j as int].name != nv[i as int]);
                        }
                    }
                }
                let mut ch = self.packages.remove(j);
                ch.add_at(names, i + 1, building);
                self.packages.insert(j, ch);
                proof {
                    assert(self.packages@ =~= orig.packages@.update(j as int, self.packages@[j as int]));
                    lemma_pviews_update(orig.packages@, j as int, self.packages@[j as int]);
                    assert(pview(orig.packages@[j as int]) == pview(orig).packages[j as int]);
                    assert(pview(*self) == add_spec(pview(orig), nv, i as int, bview(building)));
                }
            } else {
                proof {
                    assert(find_child(pview(orig).packages, nv[i as int]) < 0) by {
                        let fc = find_child(pview(orig).packages, nv[i as int]);
                        if fc >= 0 {
                            assert(pview(orig).packages[fc] == pview(orig.packages@[fc]));
                        }
                    }
                }
                let mut fresh = Package::new(head.as_str());
                proof {
                    assert(pview(fresh) == fresh_pkg(nv[i as int])) by {
                        assert(pviews(fresh.packages@) =~= Seq::<PackageV>::empty());
                        assert(bviews(fresh.buildings@) =~= Seq::<BuildingV>::empty());
                    }
                }
                fresh.add_at(names, i + 1, building);
                self.packages.push(fresh);
                proof {
                    lemma_pviews_push(orig.packages@, self.packages@[self.packages@.len() - 1]);
                    assert(self.packages@ =~= orig.packages@.push(
                        self.packages@[self.packages@.len() - 1],
                    ));
                    assert(pview(*self) == add_spec(pview(orig), nv, i as int, bview(building)));
                }
            }
        }
    }

    /// Insert a building under the dotted path `names`: intermediate packages
    /// are created as needed, and the building is appended at the last
    /// segment. An empty path is refused, as is a zero-sized footprint, and
    /// the tree is then left untouched.
    pub fn add(&mut self, names: &Vec<String>, building: Building) -> (res: Result<
        (),
        CityError,
    >)
        ensures
            match res {
                Ok(()) => names@.len() >= 1 && building.rect.width >= 1 && building.rect.depth
                    >= 1 && pview(*final(self)) == add_spec(
                    pview(*old(self)),
                    names@.map_values(|n: String| n@),
                    0,
                    bview(building),
                ),
                Err(e) => *final(self) == *old(self) && ((e == CityError::InvalidPath
                    && names@.len() == 0) || (e == CityError::InvalidDimensions && names@.len()
                    >= 1 && (building.rect.width == 0 || building.rect.depth == 0))),
            },
    {
        if names.len() == 0 {
            return Err(CityError::InvalidPath);
        }
        if building.rect.width == 0 || building.rect.depth == 0 {
            return Err(CityError::InvalidDimensions);
        }
        self.add_at(names, 0, building);
        Ok(())
    }

    /// Pack this package for rendering: every child package is packed first,
    /// then the children and the buildings are placed by descending area, and
    /// the package takes the resulting bounding box as its own footprint.
    /// Fails with `LayoutOverflow`, and only then, when a bounding box would
    /// outgrow `u16`.
    pub fn pack(&mut self) -> (res: Result<(), CityError>)
        requires
            tree_wf(pview(*old(self))),
        ensures
            match res {
                Ok(()) => Option::Some(pview(*final(self))) == pack_spec(pview(*old(self)))
                    && packed_wf(pview(*final(self))) && tree_wf(pview(*final(self))),
                Err(e) => e == CityError::LayoutOverflow && pack_spec(pview(*old(self))) is None,
            },
        decreases *old(self),
    {
        let ghost orig = *old(self);
        proof {
            lemma_pviews(orig.packages@);
        }
        let mut i: usize = 0;
        while i < self.packages.len()
            invariant
                orig == *old(self),
                i <= self.packages@.len(),
                self.packages@.len() == orig.packages@.len(),
                self.name == orig.name,
                self.rect == orig.rect,
                self.buildings == orig.buildings,
                tree_wf(pview(orig)),
                forall|j: int|
                    i <= j < self.packages@.len() ==> #[trigger] self.packages@[j]
                        == orig.packages@[j],
                forall|j: int|
                    0 <= j < i ==> Option::Some(pview(#[trigger] self.packages@[j])) == pack_spec(
                        pview(orig.packages@[j]),
                    ),
            decreases self.packages@.len() - i,
        {
            let mut ch = self.packages.remove(i);
            proof {
                assert(ch == orig.packages@[i as int]);
                lemma_pviews(orig.packages@);
                assert(pview(orig).packages[i as int] == pview(ch));
                assert(tree_wf(pview(ch)));
                assert(decreases_to!(orig => orig.packages));
                assert(decreases_to!(orig.packages => orig.packages@));
                assert(decreases_to!(orig.packages@ => orig.packages@[i as int]));
                assert(decreases_to!(orig => ch));
            }
            let r = ch.pack();
            let ghost chv0 = pview(orig.packages@[i as int]);
            self.packages.insert(i, ch);
            if r.is_err() {
                proof {
                    assert(pack_spec(chv0) is None);
                    lemma_pack_children(pview(orig).packages);
                    lemma_pviews(orig.packages@);
                    assert(pview(orig).packages[i as int] == chv0);
                    assert(pack_children(pview(orig).packages) is None);
                    assert(pack_spec(pview(orig)) is None);
                }
                return Err(CityError::LayoutOverflow);
            }
            i = i + 1;
        }
        proof {
            lemma_pack_children(pview(orig).packages);
            lemma_pviews(orig.packages@);
            assert forall|j: int| 0 <= j < pview(orig).packages.len() implies pack_spec(
                #[trigger] pview(orig).packages[j],
            ) is Some by {
                assert(Option::Some(pview(self.packages@[j])) == pack_spec(
                    pview(orig.packages@[j]),
                ));
                assert(pview(orig).packages[j] == pview(orig.packages@[j]));
            }
        }
        let ghost kids = pack_children(pview(orig).packages).unwrap();
        proof {
            lemma_pviews(self.packages@);
            assert(pviews(self.packages@) =~= kids) by {
                lemma_pviews(orig.packages@);
            }
            assert forall|j: int| 0 <= j < kids.len() implies tree_wf(#[trigger] kids[j])
                && kids[j].rect.width >= 1 && kids[j].rect.depth >= 1 by {
                lemma_pviews(orig.packages@);
                assert(kids[j] == pack_spec(pview(orig).packages[j]).unwrap());
                lemma_pack_spec_packed(pview(orig).packages[j]);
            }
        }
        sort_packages(&mut self.packages);
        sort_buildings(&mut self.buildings);
        let ghost sk = sort_desc(kids, pkeyf());
        let ghost sb = sort_desc(pview(orig).buildings, bkeyf());
        proof {
            assert(pviews(self.packages@) == sk);
            assert(bviews(self.buildings@) == sb);
            lemma_pviews(self.packages@);
            lemma_sort_desc_props(kids, pkeyf());
            lemma_sort_desc_props(pview(orig).buildings, bkeyf());
            assert(self.packages@.len() == sk.len());
            assert(self.buildings@.len() == sb.len());
            assert forall|j: int| 0 <= j < sk.len() implies (#[trigger] sk[j]).rect.width >= 1
                && sk[j].rect.depth >= 1 by {
                assert(kids.contains(sk[j]));
                let m = choose|m: int| 0 <= m < kids.len() && kids[m] == sk[j];
                assert(kids[m].rect.width >= 1);
            }
            assert forall|j: int| 0 <= j < sb.len() implies (#[trigger] sb[j]).rect.width >= 1
                && sb[j].rect.depth >= 1 by {
                assert(pview(orig).buildings.contains(sb[j]));
                let m = choose|m: int|
                    0 <= m < pview(orig).buildings.len() && pview(orig).buildings[m] == sb[j];
                assert(pview(orig).buildings[m].rect.width >= 1);
            }
        }
        let mut st = PackState {
            width: self.rect.width,
            depth: self.rect.depth,
            free_w: 0,
            free_d: 0,
            cur_w: 1,
            cur_d: 1,
            dir: Direction::Width,
        };
        let ghost st0 = init_state(orig.rect);
        let ghost mut placed: Seq<Rect> = Seq::empty();
        proof {
            assert(st == st0);
            assert(prects(sk).skip(0) =~= prects(sk));
            assert(placed + prects(sk) =~= prects(sk));
        }
        let mut i: usize = 0;
        while i < self.packages.len()
            invariant
                orig == *old(self),
                tree_wf(pview(orig)),
                pack_children(pview(orig).packages) == Option::Some(kids),
                sk == sort_desc(kids, pkeyf()),
                sb == sort_desc(pview(orig).buildings, bkeyf()),
                st0 == init_state(orig.rect),
                i <= self.packages@.len(),
                self.packages@.len() == sk.len(),
                self.name == orig.name,
                self.rect == orig.rect,
                bviews(self.buildings@) == sb,
                placed.len() == i,
                state_wf(st),
                forall|j: int| 0 <= j < sk.len() ==> pkg_sizes_ok(#[trigger] sk[j]),
                forall|j: int|
                    i <= j < self.packages@.len() ==> pview(#[trigger] self.packages@[j])
                        == sk[j],
                forall|j: int|
                    0 <= j < i ==> pview(#[trigger] self.packages@[j]) == (PackageV {
                        rect: placed[j],
                        ..sk[j]
                    }),
                place_rects(prects(sk), st0) == place_compose(
                    placed,
                    place_rects(prects(sk).skip(i as int), st),
                ),
            decreases self.packages@.len() - i,
        {
            let rw = self.packages[i].rect.width;
            let rd = self.packages[i].rect.depth;
            proof {
                assert(pview(self.packages@[i as int]) == sk[i as int]);
                assert(prects(sk).skip(i as int)[0] == sk[i as int].rect);
            }
            if (st.width as u32) + (rw as u32) + 2 > 0xFFFF || (st.depth as u32) + (rd as u32) + 2
                > 0xFFFF {
                proof {
                    assert(!fits_bound(prects(sk).skip(i as int)[0], st));
                    assert(place_rects(prects(sk).skip(i as int), st) is None);
                    assert(place_rects(prects(sk), st0) is None);
                    assert(pack_spec(pview(orig)) is None);
                }
                return Err(CityError::LayoutOverflow);
            }
            let mut ch = self.packages.remove(i);
            proof {
                assert(fits_bound(ch.rect, st));
            }
            let ghost st_before = st;
            ch.rect.place(&mut st);
            self.packages.insert(i, ch);
            proof {
                lemma_place_step(sk[i as int].rect, st_before);
                let stepped = place_step(sk[i as int].rect, st_before);
                assert(prects(sk).skip(i as int).drop_first() =~= prects(sk).skip(i + 1));
                assert(place_rects(prects(sk).skip(i as int), st_before) == place_compose(
                    seq![stepped.0],
                    place_rects(prects(sk).skip(i + 1), stepped.1),
                ));
                placed = placed.push(stepped.0);
                assert forall|o: Option<(Seq<Rect>, PackState)>|
                    place_compose(placed.drop_last(), place_compose(seq![stepped.0], o))
                        == place_compose(placed, o) by {
                    match o {
                        Option::None => {
                        }
                        Option::Some(rest) => {
                            assert(placed.drop_last() + (seq![stepped.0] + rest.0) =~= placed
                                + rest.0);
                        }
                    }
                }
            }
            i = i + 1;
        }
        let ghost st1 = st;
        let ghost placed_p = placed;
        proof {
            assert(prects(sk).skip(sk.len() as int) =~= Seq::<Rect>::empty());
            assert(place_rects(prects(sk), st0) == Option::Some((placed_p, st1))) by {
                assert(placed_p + Seq::<Rect>::empty() =~= placed_p);
            }
            placed = Seq::empty();
            assert(brects(sb).skip(0) =~= brects(sb));
            assert(placed + brects(sb) =~= brects(sb));
        }
        let mut i: usize = 0;
        while i < self.buildings.len()
            invariant
                orig == *old(self),
                tree_wf(pview(orig)),
                pack_children(pview(orig).packages) == Option::Some(kids),
                sk == sort_desc(kids, pkeyf()),
                sb == sort_desc(pview(orig).buildings, bkeyf()),
                st0 == init_state(orig.rect),
                place_rects(prects(sk), st0) == Option::Some((placed_p, st1)),
                i <= self.buildings@.len(),
                self.buildings@.len() == sb.len(),
                self.name == orig.name,
                self.rect == orig.rect,
                self.packages@.len() == sk.len(),
                placed.len() == i,
                state_wf(st),
                forall|j: int| 0 <= j < sb.len() ==> bld_sizes_ok(#[trigger] sb[j]),
                forall|j: int|
                    0 <= j < sk.len() ==> pview(#[trigger] self.packages@[j]) == (PackageV {
                        rect: placed_p[j],
                        ..sk[j]
                    }),
                forall|j: int|
                    i <= j < self.buildings@.len() ==> bview(#[trigger] self.buildings@[j])
                        == sb[j],
                forall|j: int|
                    0 <= j < i ==> bview(#[trigger] self.buildings@[j]) == (BuildingV {
                        rect: placed[j],
                        ..sb[j]
                    }),
                place_rects(brects(sb), st1) == place_compose(
                    placed,
                    place_rects(brects(sb).skip(i as int), st),
                ),
            decreases self.buildings@.len() - i,
        {
            let rw = self.buildings[i].rect.width;
            let rd = self.buildings[i].rect.depth;
            proof {
                assert(bview(self.buildings@[i as int]) == sb[i as int]);
                assert(brects(sb).skip(i as int)[0] == sb[i as int].rect);
            }
            if (st.width as u32) + (rw as u32) + 2 > 0xFFFF || (st.depth as u32) + (rd as u32) + 2
                > 0xFFFF {
                proof {
                    assert(!fits_bound(brects(sb).skip(i as int)[0], st));
                    assert(place_rects(brects(sb).skip(i as int), st) is None);
                    assert(place_rects(brects(sb), st1) is None);
                    assert(pack_spec(pview(orig)) is None);
                }
                return Err(CityError::LayoutOverflow);
            }
            let mut ch = self.buildings.remove(i);
            proof {
                assert(fits_bound(ch.rect, st));
            }
            let ghost st_before = st;
            ch.rect.place(&mut st);
            self.buildings.insert(i, ch);
            proof {
                lemma_place_step(sb[i as int].rect, st_before);
                let stepped = place_step(sb[i as int].rect, st_before);
                assert(brects(sb).skip(i as int).drop_first() =~= brects(sb).skip(i + 1));
                assert(place_rects(brects(sb).skip(i as int), st_before) == place_compose(
                    seq![stepped.0],
                    place_rects(brects(sb).skip(i + 1), stepped.1),
                ));
                placed = placed.push(stepped.0);
                assert forall|o: Option<(Seq<Rect>, PackState)>|
                    place_compose(placed.drop_last(), place_compose(seq![stepped.0], o))
                        == place_compose(placed, o) by {
                    match o {
                        Option::None => {
                        }
                        Option::Some(rest) => {
                            assert(placed.drop_last() + (seq![stepped.0] + rest.0) =~= placed
                                + rest.0);
                        }
                    }
                }
            }
            i = i + 1;
        }
        proof {
            assert(brects(sb).skip(sb.len() as int) =~= Seq::<Rect>::empty());
            assert(place_rects(brects(sb), st1) == Option::Some((placed, st))) by {
                assert(placed + Seq::<Rect>::empty() =~= placed);
            }
        }
        self.rect.width = st.width;
        self.rect.depth = st.depth;
        proof {
            lemma_pviews(self.packages@);
            assert(pviews(self.packages@) =~= set_prects(sk, placed_p));
            assert(bviews(self.buildings@) =~= set_brects(sb, placed));
            assert(pview(*self) == pack_spec(pview(orig)).unwrap());
            lemma_pack_spec_packed(pview(orig));
        }
        Ok(())
    }
}

} // verus!
