//! A two-dimensional continuous space, discretized into buckets for
//! neighbor queries.
//!
//! Coordinates are fixed-point integers; the caller picks the scale. The
//! rectangle is `[0, width) x [0, height)`, cut into columns and rows of
//! pitch `discretization` (the last column and row absorb the remainder).
//! Object ids map to locations, and each bucket maps to the ids it holds;
//! both mappings are double-buffered and promoted together by `update`.

use vstd::prelude::*;

use crate::dbm::DoubleBufferedMap;
use vstd::pervasive::unreached;

verus! {

/// The largest coordinate extent the field accepts, so that squared
/// distances and bucket keys stay well inside the machine integers.
pub const MAX_EXTENT: i64 = 1_000_000_000;

/// A fixed-point position.
#[derive(Clone, Copy, Debug, PartialEq, Eq, Structural, Hash)]
pub struct Int2D {
    pub x: i64,
    pub y: i64,
}

/// Map `v` into `[0, l)` by wrap-around.
pub fn toroidal_transform(v: i64, l: i64) -> (r: i64)
    requires
        0 < l <= MAX_EXTENT,
    ensures
        0 <= r < l,
        r == (v as int) % (l as int),
{
    if v >= 0 {
        v % l
    } else {
        let w = -(v + 1);
        let m = w % l;
        proof {
            let vi = v as int;
            let li = l as int;
            vstd::arithmetic::div_mod::lemma_fundamental_div_mod(vi, li);
            vstd::arithmetic::div_mod::lemma_mod_bound(vi, li);
            let e = vi % li;
            let q = vi / li;
            assert(w as int == (-q - 1) * li + (li - e - 1)) by (nonlinear_arith)
                requires
                    vi == li * q + e,
                    w as int == -vi - 1,
            ;
            vstd::arithmetic::div_mod::lemma_fundamental_div_mod_converse(
                w as int,
                li,
                -q - 1,
                li - e - 1,
            );
        }
        l - 1 - m
    }
}

/// The distance of `a` and `b` along one axis of length `l`, going around
/// the shorter way.
pub fn toroidal_distance(a: i64, b: i64, l: i64) -> (r: i64)
    requires
        0 < l <= MAX_EXTENT,
        0 <= a < l,
        0 <= b < l,
    ensures
        r == spec_tor_dist(a as int, b as int, l as int),
        0 <= r,
        2 * r <= l,
{
    let d = if a >= b {
        a - b
    } else {
        b - a
    };
    if l - d < d {
        l - d
    } else {
        d
    }
}

/// The absolute difference.
pub open spec fn spec_abs(v: int) -> int {
    if v < 0 {
        -v
    } else {
        v
    }
}

/// Wrap-around distance along one axis.
pub open spec fn spec_tor_dist(a: int, b: int, l: int) -> int {
    let d = spec_abs(a - b);
    if l - d < d {
        l - d
    } else {
        d
    }
}

/// The square.
pub open spec fn sq(v: int) -> int {
    v * v
}

/// The bucketed plane.
pub struct Field2D {
    pub loc_map: DoubleBufferedMap<Int2D>,
    pub bag_map: DoubleBufferedMap<Vec<u64>>,
    pub width: i64,
    pub height: i64,
    pub discretization: i64,
    pub toroidal: bool,
}

impl Field2D {
    /// How many bucket columns the field has.
    pub open spec fn cols(self) -> int {
        if self.width as int / (self.discretization as int) < 1 {
            1
        } else {
            self.width as int / (self.discretization as int)
        }
    }

    /// How many bucket rows the field has.
    pub open spec fn rows(self) -> int {
        if self.height as int / (self.discretization as int) < 1 {
            1
        } else {
            self.height as int / (self.discretization as int)
        }
    }

    /// The bucket column of coordinate `x`; the last column absorbs the
    /// remainder of the division.
    pub open spec fn col_of(self, x: int) -> int {
        if x / (self.discretization as int) < self.cols() - 1 {
            x / (self.discretization as int)
        } else {
            self.cols() - 1
        }
    }

    /// The bucket row of coordinate `y`.
    pub open spec fn row_of(self, y: int) -> int {
        if y / (self.discretization as int) < self.rows() - 1 {
            y / (self.discretization as int)
        } else {
            self.rows() - 1
        }
    }

    /// The bucket key of column `c` and row `r`.
    pub open spec fn spec_key(c: int, r: int) -> int {
        c * 0x1_0000_0000 + r
    }

    /// The bucket key a position falls in.
    pub open spec fn key_of(self, p: Int2D) -> int {
        Field2D::spec_key(self.col_of(p.x as int), self.row_of(p.y as int))
    }

    /// Whether `p` lies in the field's rectangle.
    pub open spec fn in_rect(self, p: Int2D) -> bool {
        0 <= p.x < self.width && 0 <= p.y < self.height
    }

    /// Where a placement at `p` actually lands: wrapped around on a torus,
    /// `p` itself otherwise.
    pub open spec fn wrapped(self, p: Int2D) -> Int2D {
        if self.toroidal {
            Int2D {
                x: ((p.x as int) % (self.width as int)) as i64,
                y: ((p.y as int) % (self.height as int)) as i64,
            }
        } else {
            p
        }
    }

    /// The object-to-location read view.
    pub open spec fn rlocs(self) -> Map<u64, Int2D> {
        self.loc_map.read_view()
    }

    /// The object-to-location write view.
    pub open spec fn wlocs(self) -> Map<u64, Int2D> {
        self.loc_map.write_view()
    }

    /// The bucket read view.
    pub open spec fn rbags(self) -> Map<u64, Vec<u64>> {
        self.bag_map.read_view()
    }

    /// The bucket write view.
    pub open spec fn wbags(self) -> Map<u64, Vec<u64>> {
        self.bag_map.write_view()
    }

    /// The two maps of one side describe each other: every placed object
    /// lies in the rectangle and sits exactly in the bucket of its
    /// location, and every bucket member is a placed object.
    pub open spec fn consistent(self, locs: Map<u64, Int2D>, bags: Map<u64, Vec<u64>>) -> bool {
        &&& forall|o: u64| #[trigger]
            locs.contains_key(o) ==> self.in_rect(locs[o]) && bags.contains_key(
                self.key_of(locs[o]) as u64,
            ) && bags[self.key_of(locs[o]) as u64]@.contains(o)
        &&& forall|b: u64, i: int|
            #![trigger bags[b]@[i]]
            bags.contains_key(b) && 0 <= i < bags[b]@.len() ==> locs.contains_key(bags[b]@[i])
                && self.key_of(locs[bags[b]@[i]]) as u64 == b
        &&& forall|b: u64| #[trigger] bags.contains_key(b) ==> bags[b]@.no_duplicates()
    }

    pub open spec fn wf(self) -> bool {
        &&& 0 < self.discretization
        &&& 0 < self.width <= MAX_EXTENT
        &&& 0 < self.height <= MAX_EXTENT
        &&& self.loc_map.wf()
        &&& self.bag_map.wf()
        &&& self.consistent(self.rlocs(), self.rbags())
        &&& self.consistent(self.wlocs(), self.wbags())
    }

    /// A fresh, empty field.
    pub fn new(w: i64, h: i64, d: i64, t: bool) -> (f: Field2D)
        requires
            0 < d,
            0 < w <= MAX_EXTENT,
            0 < h <= MAX_EXTENT,
        ensures
            f.wf(),
            f.width == w,
            f.height == h,
            f.discretization == d,
            f.toroidal == t,
            f.rlocs() == Map::<u64, Int2D>::empty(),
            f.wlocs() == Map::<u64, Int2D>::empty(),
    {
        Field2D {
            loc_map: DoubleBufferedMap::new(),
            bag_map: DoubleBufferedMap::new(),
            width: w,
            height: h,
            discretization: d,
            toroidal: t,
        }
    }

    /// The bucket key of an in-rectangle position.
    fn bucket_key(&self, p: Int2D) -> (k: u64)
        requires
            0 < self.discretization,
            0 < self.width <= MAX_EXTENT,
            0 < self.height <= MAX_EXTENT,
            self.in_rect(p),
        ensures
            k == self.key_of(p) as u64,
            k == self.key_of(p),
    {
        let d = self.discretization;
        let mut nc = self.width / d;
        if nc < 1 {
            nc = 1;
        }
        let mut nr = self.height / d;
        if nr < 1 {
            nr = 1;
        }
        let mut c = p.x / d;
        if c > nc - 1 {
            c = nc - 1;
        }
        let mut r = p.y / d;
        if r > nr - 1 {
            r = nr - 1;
        }
        proof {
            assert(0 <= c < self.cols());
            assert(0 <= r < self.rows());
            assert(self.cols() <= self.width);
            assert(self.rows() <= self.height);
        }
        (c as u64) * 0x1_0000_0000u64 + (r as u64)
    }

    /// Read-view location lookup.
    pub fn get_location(&self, object: u64) -> (r: Option<Int2D>)
        requires
            self.wf(),
        ensures
            match r {
                Some(p) => self.rlocs().contains_key(object) && p == self.rlocs()[object],
                None => !self.rlocs().contains_key(object),
            },
    {
        match self.loc_map.get(object) {
            Some(p) => Some(*p),
            None => None,
        }
    }

    /// The objects sharing the bucket of `loc`, on the read view.
    pub fn get_objects_at_location(&self, loc: Int2D) -> (r: Vec<u64>)
        requires
            self.wf(),
            self.in_rect(self.wrapped(loc)),
        ensures
            r@.no_duplicates(),
            forall|o: u64|
                r@.contains(o) <==> (self.rlocs().contains_key(o) && self.key_of(
                    #[trigger] self.rlocs()[o],
                ) == self.key_of(self.wrapped(loc))),
    {
        let pos = if self.toroidal {
            Int2D {
                x: toroidal_transform(loc.x, self.width),
                y: toroidal_transform(loc.y, self.height),
            }
        } else {
            loc
        };
        let key = self.bucket_key(pos);
        let mut r: Vec<u64> = Vec::new();
        match self.bag_map.get(key) {
            Some(bag) => {
                let n = bag.len();
                let mut i: usize = 0;
                while i < n
                    invariant
                        n == bag@.len(),
                        i <= n,
                        r@ == bag@.take(i as int),
                    decreases n - i,
                {
                    r.push(bag[i]);
                    proof {
                        assert(r@ =~= bag@.take(i + 1));
                    }
                    i += 1;
                }
                proof {
                    assert(r@ =~= bag@);
                    assert(self.rbags().contains_key(key));
                    assert forall|o: u64| r@.contains(o) implies (self.rlocs().contains_key(o)
                        && self.key_of(self.rlocs()[o]) == self.key_of(pos)) by {
                        let i = choose|i: int| 0 <= i < bag@.len() && bag@[i] == o;
                        assert(self.rbags()[key]@[i] == o);
                    }
                    assert forall|o: u64|
                        self.rlocs().contains_key(o) && self.key_of(#[trigger] self.rlocs()[o])
                            == self.key_of(pos) implies r@.contains(o) by {
                        assert(self.rbags()[self.key_of(self.rlocs()[o]) as u64]@.contains(o));
                    }
                }
                r
            },
            None => {
                proof {
                    assert forall|o: u64|
                        !(self.rlocs().contains_key(o) && self.key_of(#[trigger] self.rlocs()[o])
                            == self.key_of(pos)) by {
                        if self.rlocs().contains_key(o) && self.key_of(self.rlocs()[o])
                            == self.key_of(pos) {
                            assert(self.rbags().contains_key(self.key_of(self.rlocs()[o]) as u64));
                        }
                    }
                }
                r
            },
        }
    }

    /// Stage `object` at `loc` on the write views: the location map gets
    /// the (wrapped) position, the bucket of the old staged position loses
    /// the object, and the bucket of the new position gains it. The read
    /// views keep the prior tick's placements until `update`.
    #[verifier::rlimit(60)]
    pub fn set_object_location(&mut self, object: u64, loc: Int2D)
        requires
            old(self).wf(),
            !old(self).toroidal ==> old(self).in_rect(loc),
        ensures
            final(self).wf(),
            final(self).rlocs() == old(self).rlocs(),
            final(self).rbags() == old(self).rbags(),
            final(self).wlocs() == old(self).wlocs().insert(object, old(self).wrapped(loc)),
            final(self).width == old(self).width,
            final(self).height == old(self).height,
            final(self).discretization == old(self).discretization,
            final(self).toroidal == old(self).toroidal,
    {
        let ghost s0 = *self;
        let pos = if self.toroidal {
            Int2D {
                x: toroidal_transform(loc.x, self.width),
                y: toroidal_transform(loc.y, self.height),
            }
        } else {
            loc
        };
        proof {
            assert(pos == s0.wrapped(loc));
            assert(self.in_rect(pos));
        }
        let old_pos = match self.loc_map.get_write(object) {
            Some(p) => Some(*p),
            None => None,
        };
        match old_pos {
            Some(op) => {
                proof {
                    assert(s0.wlocs().contains_key(object) && s0.wlocs()[object] == op);
                    assert(s0.in_rect(op));
                }
                let okey = self.bucket_key(op);
                let cleaned = match self.bag_map.get_write(okey) {
                    Some(bag) => vec_without(bag, object),
                    None => {
                        proof {
                            assert(s0.wbags().contains_key(s0.key_of(op) as u64));
                            assert(false);
                        }
                        unreached()
                    },
                };
                self.bag_map.insert(okey, cleaned);
            },
            None => {},
        }
        let ghost s1 = *self;
        proof {
            assert forall|b: u64, i: int|
                #![trigger s1.wbags()[b]@[i]]
                s1.wbags().contains_key(b) && 0 <= i < s1.wbags()[b]@.len() implies s1.wbags(
            )[b]@[i] != object by {
                match old_pos {
                    Some(op) => {
                        let okey = s0.key_of(op) as u64;
                        if b == okey {
                            assert(!s1.wbags()[b]@.contains(object));
                            assert(s1.wbags()[b]@.contains(s1.wbags()[b]@[i]));
                        } else {
                            if s1.wbags()[b]@[i] == object {
                                assert(s0.wbags()[b]@[i] == object);
                                assert(s0.key_of(s0.wlocs()[object]) as u64 == b);
                                assert(false);
                            }
                        }
                    },
                    None => {
                        if s1.wbags()[b]@[i] == object {
                            assert(s0.wlocs().contains_key(object));
                            assert(false);
                        }
                    },
                }
            }
            assert forall|b: u64, i: int|
                #![trigger s1.wbags()[b]@[i]]
                s1.wbags().contains_key(b) && 0 <= i < s1.wbags()[b]@.len() implies
                s0.wlocs().contains_key(s1.wbags()[b]@[i]) && s0.key_of(
                s0.wlocs()[s1.wbags()[b]@[i]],
            ) as u64 == b by {
                let y = s1.wbags()[b]@[i];
                match old_pos {
                    Some(op) => {
                        let okey = s0.key_of(op) as u64;
                        if b == okey {
                            assert(s1.wbags()[b]@.contains(y));
                            assert(s0.wbags()[b]@.contains(y));
                            let j = choose|j: int|
                                0 <= j < s0.wbags()[b]@.len() && s0.wbags()[b]@[j] == y;
                            assert(s0.wbags()[b]@[j] == y);
                        } else {
                            assert(s0.wbags()[b]@[i] == y);
                        }
                    },
                    None => {
                        assert(s0.wbags()[b]@[i] == y);
                    },
                }
            }
            assert forall|o: u64| #[trigger]
                s1.wlocs().contains_key(o) && o != object implies s0.in_rect(s1.wlocs()[o])
                && s1.wbags().contains_key(s0.key_of(s1.wlocs()[o]) as u64) && s1.wbags()[s0.key_of(
                s1.wlocs()[o],
            ) as u64]@.contains(o) by {
                assert(s0.wlocs().contains_key(o) && s1.wlocs()[o] == s0.wlocs()[o]);
                let k = s0.key_of(s0.wlocs()[o]) as u64;
                assert(s0.wbags()[k]@.contains(o));
                match old_pos {
                    Some(op) => {
                        let okey = s0.key_of(op) as u64;
                        if k == okey {
                            assert(s1.wbags()[k]@.contains(o));
                        } else {
                            assert(s1.wbags()[k] == s0.wbags()[k]);
                        }
                    },
                    None => {},
                }
            }
        }
        let nkey = self.bucket_key(pos);
        let nbag = match self.bag_map.get_write(nkey) {
            Some(bag) => vec_with(bag, object),
            None => {
                let mut v: Vec<u64> = Vec::new();
                v.push(object);
                v
            },
        };
        self.bag_map.insert(nkey, nbag);
        self.loc_map.insert(object, pos);
        proof {
            let locs3 = self.wlocs();
            let bags3 = self.wbags();
            assert(locs3 == s1.wlocs().insert(object, pos));
            assert(bags3 == s1.wbags().insert(s0.key_of(pos) as u64, nbag));
            let nk = s0.key_of(pos) as u64;
            assert forall|o: u64| #[trigger] locs3.contains_key(o) implies self.in_rect(locs3[o])
                && bags3.contains_key(self.key_of(locs3[o]) as u64) && bags3[self.key_of(
                locs3[o],
            ) as u64]@.contains(o) by {
                if o == object {
                    assert(locs3[o] == pos);
                    if s1.wbags().contains_key(nk) {
                        assert(nbag@ == s1.wbags()[nk]@.push(object));
                        assert(nbag@[nbag@.len() - 1] == object);
                    } else {
                        assert(nbag@[0] == object);
                    }
                    assert(nbag@.contains(object));
                } else {
                    let k = s0.key_of(s1.wlocs()[o]) as u64;
                    assert(s1.wbags()[k]@.contains(o));
                    if k == nk {
                        assert(s1.wbags().contains_key(nk));
                        let j = choose|j: int|
                            0 <= j < s1.wbags()[nk]@.len() && s1.wbags()[nk]@[j] == o;
                        assert(nbag@[j] == o);
                        assert(nbag@.contains(o));
                    } else {
                        assert(bags3[k] == s1.wbags()[k]);
                    }
                }
            }
            assert forall|b: u64, i: int|
                #![trigger bags3[b]@[i]]
                bags3.contains_key(b) && 0 <= i < bags3[b]@.len() implies locs3.contains_key(
                bags3[b]@[i],
            ) && self.key_of(locs3[bags3[b]@[i]]) as u64 == b by {
                let y = bags3[b]@[i];
                if b == nk {
                    if s1.wbags().contains_key(nk) && i < s1.wbags()[nk]@.len() {
                        assert(s1.wbags()[nk]@[i] == y);
                        assert(y != object);
                        assert(s1.wlocs().contains_key(y) && s0.key_of(s1.wlocs()[y]) as u64
                            == nk);
                        assert(locs3[y] == s1.wlocs()[y]);
                    } else {
                        assert(y == object);
                        assert(locs3[y] == pos);
                    }
                } else {
                    assert(s1.wbags().contains_key(b) && s1.wbags()[b]@[i] == y);
                    assert(y != object);
                    assert(s1.wlocs().contains_key(y) && s0.key_of(s1.wlocs()[y]) as u64 == b);
                    assert(locs3[y] == s1.wlocs()[y]);
                }
            }
            assert forall|b: u64| #[trigger] bags3.contains_key(b) implies bags3[b]@.no_duplicates() by {
                if b == nk {
                    if s1.wbags().contains_key(nk) {
                        assert(nbag@ == s1.wbags()[nk]@.push(object));
                        assert forall|a: int, c: int|
                            0 <= a < c < nbag@.len() implies nbag@[a] != nbag@[c] by {
                            if c + 1 == nbag@.len() {
                                assert(s1.wbags()[nk]@[a] != object);
                            }
                        }
                    } else {
                        assert(nbag@.len() == 1);
                    }
                } else {
                    assert(s1.wbags()[b]@.no_duplicates());
                }
            }
        }
    }

    /// The squared distance between two in-rectangle positions, under the
    /// field's metric.
    pub open spec fn spec_dist2(self, a: Int2D, b: Int2D) -> int {
        if self.toroidal {
            sq(spec_tor_dist(a.x as int, b.x as int, self.width as int)) + sq(
                spec_tor_dist(a.y as int, b.y as int, self.height as int),
            )
        } else {
            sq(a.x - b.x) + sq(a.y - b.y)
        }
    }

    /// Whether `o` is placed on the read view within `dist` of `pos`.
    pub open spec fn near(self, pos: Int2D, dist: int, o: u64) -> bool {
        self.rlocs().contains_key(o) && self.spec_dist2(pos, self.rlocs()[o]) <= dist * dist
    }

    /// The squared distance of `a` and `b` under the field's metric.
    pub fn dist2(&self, a: Int2D, b: Int2D) -> (r: i64)
        requires
            0 < self.width <= MAX_EXTENT,
            0 < self.height <= MAX_EXTENT,
            self.in_rect(a),
            self.in_rect(b),
        ensures
            r == self.spec_dist2(a, b),
    {
        if self.toroidal {
            let tx = toroidal_distance(a.x, b.x, self.width);
            let ty = toroidal_distance(a.y, b.y, self.height);
            proof {
                assert(tx * tx <= MAX_EXTENT * MAX_EXTENT && tx * tx >= 0) by (nonlinear_arith)
                    requires
                        0 <= tx <= MAX_EXTENT,
                ;
                assert(ty * ty <= MAX_EXTENT * MAX_EXTENT && ty * ty >= 0) by (nonlinear_arith)
                    requires
                        0 <= ty <= MAX_EXTENT,
                ;
            }
            tx * tx + ty * ty
        } else {
            let dx = if a.x >= b.x {
                a.x - b.x
            } else {
                b.x - a.x
            };
            let dy = if a.y >= b.y {
                a.y - b.y
            } else {
                b.y - a.y
            };
            proof {
                assert(dx * dx <= MAX_EXTENT * MAX_EXTENT && dx * dx >= 0) by (nonlinear_arith)
                    requires
                        0 <= dx <= MAX_EXTENT,
                ;
                assert(dy * dy <= MAX_EXTENT * MAX_EXTENT && dy * dy >= 0) by (nonlinear_arith)
                    requires
                        0 <= dy <= MAX_EXTENT,
                ;
                assert(sq(a.x - b.x) == dx * dx && sq(a.y - b.y) == dy * dy) by (nonlinear_arith)
                    requires
                        dx == spec_abs(a.x - b.x),
                        dy == spec_abs(a.y - b.y),
                ;
            }
            dx * dx + dy * dy
        }
    }

    /// The bucket column of an in-rectangle x coordinate.
    fn col_exec(&self, x: i64) -> (c: i64)
        requires
            0 < self.discretization,
            0 < self.width <= MAX_EXTENT,
            0 <= x < self.width,
        ensures
            c == self.col_of(x as int),
            c == axis_col(x as int, self.discretization as int, self.cols()),
            0 <= c < self.cols(),
    {
        let d = self.discretization;
        let mut nc = self.width / d;
        if nc < 1 {
            nc = 1;
        }
        let mut c = x / d;
        if c > nc - 1 {
            c = nc - 1;
        }
        c
    }

    /// The bucket row of an in-rectangle y coordinate.
    fn row_exec(&self, y: i64) -> (r: i64)
        requires
            0 < self.discretization,
            0 < self.height <= MAX_EXTENT,
            0 <= y < self.height,
        ensures
            r == self.row_of(y as int),
            r == axis_col(y as int, self.discretization as int, self.rows()),
            0 <= r < self.rows(),
    {
        let d = self.discretization;
        let mut nr = self.height / d;
        if nr < 1 {
            nr = 1;
        }
        let mut r = y / d;
        if r > nr - 1 {
            r = nr - 1;
        }
        r
    }

    /// The objects within `dist` of `center` on the read view, each once:
    /// exactly those whose (toroidal or Euclidean) distance to the wrapped
    /// center is at most `dist`. Scans the square of buckets around the
    /// center's bucket instead of the whole field.
    #[verifier::rlimit(100)]
    pub fn get_neighbors_within_distance(&self, center: Int2D, dist: i64) -> (r: Vec<u64>)
        requires
            self.wf(),
            0 <= dist <= MAX_EXTENT,
            !self.toroidal ==> self.in_rect(center),
        ensures
            r@.no_duplicates(),
            forall|o: u64|
                #![trigger r@.contains(o)]
                #![trigger self.rlocs().contains_key(o)]
                r@.contains(o) <==> self.near(self.wrapped(center), dist as int, o),
    {
        let pos = if self.toroidal {
            Int2D {
                x: toroidal_transform(center.x, self.width),
                y: toroidal_transform(center.y, self.height),
            }
        } else {
            center
        };
        proof {
            assert(pos == self.wrapped(center));
            assert(self.in_rect(pos));
        }
        let d = self.discretization;
        let span = if dist == 0 {
            0
        } else if d >= dist {
            1
        } else {
            (dist + d - 1) / d
        };
        proof {
            if dist == 0 {
                vstd::arithmetic::div_mod::lemma_fundamental_div_mod_converse(
                    dist as int + d - 1,
                    d as int,
                    0,
                    d - 1,
                );
            } else if d >= dist {
                vstd::arithmetic::div_mod::lemma_fundamental_div_mod_converse(
                    dist as int + d - 1,
                    d as int,
                    1,
                    dist - 1,
                );
            } else {
                vstd::arithmetic::div_mod::lemma_fundamental_div_mod(dist as int + d - 1, d as int);
                vstd::arithmetic::div_mod::lemma_mod_bound(dist as int + d - 1, d as int);
                vstd::arithmetic::div_mod::lemma_div_is_ordered(dist as int, dist as int + d - 1, d as int);
                assert((dist as int + d - 1) / (d as int) <= dist) by {
                    vstd::arithmetic::div_mod::lemma_fundamental_div_mod_converse(
                        (dist as int) * (d as int),
                        d as int,
                        dist as int,
                        0,
                    );
                    assert(dist as int + d - 1 <= (dist as int) * (d as int)) by (nonlinear_arith)
                        requires
                            1 <= d,
                            1 <= dist,
                    ;
                    vstd::arithmetic::div_mod::lemma_div_is_ordered(
                        dist as int + d - 1,
                        (dist as int) * (d as int),
                        d as int,
                    );
                }
            }
            assert(span as int == (dist as int + d - 1) / (d as int));
            assert(0 <= span <= MAX_EXTENT);
        }
        let mut nc = self.width / d;
        if nc < 1 {
            nc = 1;
        }
        let mut nr = self.height / d;
        if nr < 1 {
            nr = 1;
        }
        let bc = self.col_exec(pos.x);
        let br = self.row_exec(pos.y);
        let cols_w = axis_window(bc, span, nc, self.toroidal);
        let rows_w = axis_window(br, span, nr, self.toroidal);
        let mut r: Vec<u64> = Vec::new();
        let na = cols_w.len();
        let nb = rows_w.len();
        let mut a: usize = 0;
        while a < na
            invariant
                self.wf(),
                0 <= dist <= MAX_EXTENT,
                pos == self.wrapped(center),
                self.in_rect(pos),
                na == cols_w@.len(),
                nb == rows_w@.len(),
                a <= na,
                nc as int == self.cols(),
                nr as int == self.rows(),
                d == self.discretization,
                cols_w@.no_duplicates(),
                rows_w@.no_duplicates(),
                forall|i: int| 0 <= i < cols_w@.len() ==> 0 <= #[trigger] cols_w@[i] < nc,
                forall|i: int| 0 <= i < rows_w@.len() ==> 0 <= #[trigger] rows_w@[i] < nr,
                forall|c: i64|
                    0 <= c < nc ==> (cols_w@.contains(c) <==> (if self.toroidal {
                        in_circular_window(c as int, bc as int, span as int, nc as int)
                    } else {
                        bc - span <= c <= bc + span
                    })),
                forall|c: i64|
                    0 <= c < nr ==> (rows_w@.contains(c) <==> (if self.toroidal {
                        in_circular_window(c as int, br as int, span as int, nr as int)
                    } else {
                        br - span <= c <= br + span
                    })),
                bc as int == self.col_of(pos.x as int),
                br as int == self.row_of(pos.y as int),
                span as int == (dist as int + d - 1) / (d as int),
                r@.no_duplicates(),
                forall|o: u64|
                    #![trigger r@.contains(o)]
                    #![trigger self.rlocs().contains_key(o)]
                    r@.contains(o) <==> (self.near(pos, dist as int, o) && visited_key(
                        cols_w@,
                        rows_w@,
                        a as int,
                        0,
                        self.key_of(self.rlocs()[o]),
                    )),
            decreases na - a,
        {
            let ca = cols_w[a];
            let mut bi: usize = 0;
            while bi < nb
                invariant
                    self.wf(),
                    0 <= dist <= MAX_EXTENT,
                    pos == self.wrapped(center),
                    self.in_rect(pos),
                    na == cols_w@.len(),
                    nb == rows_w@.len(),
                    a < na,
                    bi <= nb,
                    ca == cols_w@[a as int],
                    nc as int == self.cols(),
                    nr as int == self.rows(),
                    d == self.discretization,
                    cols_w@.no_duplicates(),
                    rows_w@.no_duplicates(),
                    forall|i: int| 0 <= i < cols_w@.len() ==> 0 <= #[trigger] cols_w@[i] < nc,
                    forall|i: int| 0 <= i < rows_w@.len() ==> 0 <= #[trigger] rows_w@[i] < nr,
                    r@.no_duplicates(),
                    forall|o: u64|
                        #![trigger r@.contains(o)]
                        #![trigger self.rlocs().contains_key(o)]
                        r@.contains(o) <==> (self.near(pos, dist as int, o) && visited_key(
                            cols_w@,
                            rows_w@,
                            a as int,
                            bi as int,
                            self.key_of(self.rlocs()[o]),
                        )),
                decreases nb - bi,
            {
                let rb = rows_w[bi];
                let key = (ca as u64) * 0x1_0000_0000u64 + (rb as u64);
                proof {
                    assert(key == Field2D::spec_key(ca as int, rb as int));
                }
                let ghost pre_r = r@;
                match self.bag_map.get(key) {
                    Some(bag) => {
                        let m_len = bag.len();
                        let mut m: usize = 0;
                        while m < m_len
                            invariant
                                self.wf(),
                                0 <= dist <= MAX_EXTENT,
                                self.in_rect(pos),
                                m <= m_len,
                                m_len == bag@.len(),
                                self.rbags().contains_key(key) && self.rbags()[key] == bag,
                                key == Field2D::spec_key(ca as int, rb as int),
                                na == cols_w@.len(),
                                nb == rows_w@.len(),
                                a < na,
                                bi < nb,
                                ca == cols_w@[a as int],
                                rb == rows_w@[bi as int],
                                nc as int == self.cols(),
                                nr as int == self.rows(),
                                cols_w@.no_duplicates(),
                                rows_w@.no_duplicates(),
                                forall|i: int|
                                    0 <= i < cols_w@.len() ==> 0 <= #[trigger] cols_w@[i] < nc,
                                forall|i: int|
                                    0 <= i < rows_w@.len() ==> 0 <= #[trigger] rows_w@[i] < nr,
                                r@.no_duplicates(),
                                forall|o: u64|
                                    #![trigger r@.contains(o)]
                                    #![trigger self.rlocs().contains_key(o)]
                                    r@.contains(o) <==> (self.near(pos, dist as int, o) && (
                                    visited_key(
                                        cols_w@,
                                        rows_w@,
                                        a as int,
                                        bi as int,
                                        self.key_of(self.rlocs()[o]),
                                    ) || (self.key_of(self.rlocs()[o]) == key && bag@.take(
                                        m as int,
                                    ).contains(o)))),
                            decreases m_len - m,
                        {
                            let o = bag[m];
                            proof {
                                assert(self.rbags()[key]@[m as int] == o);
                                assert(self.rlocs().contains_key(o));
                                assert(self.key_of(self.rlocs()[o]) as u64 == key);
                                assert(self.in_rect(self.rlocs()[o]));
                            }
                            let lo = match self.loc_map.get(o) {
                                Some(p) => *p,
                                None => unreached(),
                            };
                            let dd = self.dist2(pos, lo);
                            proof {
                                assert(dist * dist >= 0 && dist * dist <= MAX_EXTENT
                                    * MAX_EXTENT) by (nonlinear_arith)
                                    requires
                                        0 <= dist <= MAX_EXTENT,
                                ;
                            }
                            let ghost prev = r@;
                            if dd <= dist * dist {
                                proof {
                                    if r@.contains(o) {
                                        assert(self.near(pos, dist as int, o));
                                        if visited_key(
                                            cols_w@,
                                            rows_w@,
                                            a as int,
                                            bi as int,
                                            self.key_of(self.rlocs()[o]),
                                        ) {
                                            lemma_visited_key_fresh(
                                                cols_w@,
                                                rows_w@,
                                                a as int,
                                                bi as int,
                                                nc as int,
                                                nr as int,
                                            );
                                            assert(false);
                                        } else {
                                            assert(bag@.take(m as int).contains(o));
                                            let j = choose|j: int|
                                                0 <= j < m && bag@.take(m as int)[j] == o;
                                            assert(bag@[j] == o && bag@[m as int] == o);
                                            assert(false);
                                        }
                                    }
                                }
                                r.push(o);
                            }
                            proof {
                                assert(bag@.take(m + 1) =~= bag@.take(m as int).push(o));
                                assert(bag@.take(m + 1)[m as int] == o);
                                assert forall|oo: u64|
                                    #![trigger r@.contains(oo)]
                                    #![trigger self.rlocs().contains_key(oo)]
                                    r@.contains(oo) <==> (self.near(pos, dist as int, oo) && (
                                visited_key(
                                    cols_w@,
                                    rows_w@,
                                    a as int,
                                    bi as int,
                                    self.key_of(self.rlocs()[oo]),
                                ) || (self.key_of(self.rlocs()[oo]) == key && bag@.take(
                                    m + 1,
                                ).contains(oo)))) by {
                                    if oo == o {
                                        if dd <= dist * dist {
                                            assert(r@[r@.len() - 1] == o);
                                            assert(r@.contains(o));
                                        } else {
                                            if r@.contains(oo) {
                                                assert(prev.contains(oo));
                                            }
                                            assert(!self.near(pos, dist as int, oo));
                                        }
                                    } else {
                                        if r@.contains(oo) {
                                            if prev.contains(oo) {
                                                if bag@.take(m as int).contains(oo) {
                                                    let j = choose|j: int|
                                                        0 <= j < m && bag@.take(m as int)[j] == oo;
                                                    assert(bag@.take(m + 1)[j] == oo);
                                                }
                                            } else {
                                                assert(dd <= dist * dist && r@[r@.len() - 1]
                                                    == o);
                                                let j = choose|j: int|
                                                    0 <= j < prev.len() && prev[j] == oo;
                                                assert(r@[j] == oo);
                                                assert(false);
                                            }
                                        } else {
                                            if self.near(pos, dist as int, oo) && (visited_key(
                                                cols_w@,
                                                rows_w@,
                                                a as int,
                                                bi as int,
                                                self.key_of(self.rlocs()[oo]),
                                            ) || (self.key_of(self.rlocs()[oo]) == key
                                                && bag@.take(m + 1).contains(oo))) {
                                                if bag@.take(m + 1).contains(oo) && self.key_of(
                                                    self.rlocs()[oo],
                                                ) == key {
                                                    let j = choose|j: int|
                                                        0 <= j < m + 1 && (#[trigger] bag@.take(
                                                            m + 1,
                                                        )[j]) == oo;
                                                    assert(j < m);
                                                    assert(bag@.take(m as int)[j] == oo);
                                                    assert(prev.contains(oo));
                                                    if dd <= dist * dist {
                                                        let jj = choose|jj: int|
                                                            0 <= jj < prev.len() && prev[jj] == oo;
                                                        assert(r@[jj] == oo);
                                                    }
                                                    assert(r@.contains(oo));
                                                } else {
                                                    assert(prev.contains(oo));
                                                    if dd <= dist * dist {
                                                        let jj = choose|jj: int|
                                                            0 <= jj < prev.len() && prev[jj] == oo;
                                                        assert(r@[jj] == oo);
                                                    }
                                                    assert(r@.contains(oo));
                                                }
                                                assert(false);
                                            }
                                        }
                                    }
                                }
                            }
                            m += 1;
                        }
                        proof {
                            assert(bag@.take(m_len as int) =~= bag@);
                            lemma_visited_key_step(cols_w@, rows_w@, a as int, bi as int);
                            assert forall|o: u64|
                                #![trigger r@.contains(o)]
                                #![trigger self.rlocs().contains_key(o)]
                                r@.contains(o) <==> (self.near(pos, dist as int, o)
                                && visited_key(
                                cols_w@,
                                rows_w@,
                                a as int,
                                bi + 1,
                                self.key_of(self.rlocs()[o]),
                            )) by {
                                if r@.contains(o) {
                                    if self.key_of(self.rlocs()[o]) == key && bag@.contains(o) {
                                    }
                                } else {
                                    if self.near(pos, dist as int, o) && visited_key(
                                        cols_w@,
                                        rows_w@,
                                        a as int,
                                        bi + 1,
                                        self.key_of(self.rlocs()[o]),
                                    ) {
                                        if self.key_of(self.rlocs()[o]) == key {
                                            assert(self.rbags()[key]@.contains(o));
                                        }
                                    }
                                }
                            }
                        }
                    },
                    None => {
                        proof {
                            lemma_visited_key_step(cols_w@, rows_w@, a as int, bi as int);
                            assert forall|o: u64|
                                #![trigger r@.contains(o)]
                                #![trigger self.rlocs().contains_key(o)]
                                r@.contains(o) <==> (self.near(pos, dist as int, o)
                                && visited_key(
                                cols_w@,
                                rows_w@,
                                a as int,
                                bi + 1,
                                self.key_of(self.rlocs()[o]),
                            )) by {
                                if !r@.contains(o) && self.near(pos, dist as int, o)
                                    && visited_key(
                                    cols_w@,
                                    rows_w@,
                                    a as int,
                                    bi + 1,
                                    self.key_of(self.rlocs()[o]),
                                ) {
                                    if self.key_of(self.rlocs()[o]) == key {
                                        assert(self.rbags().contains_key(
                                            self.key_of(self.rlocs()[o]) as u64,
                                        ));
                                        assert(false);
                                    }
                                }
                            }
                        }
                    },
                }
                bi += 1;
            }
            proof {
                lemma_visited_key_wrap(cols_w@, rows_w@, a as int);
            }
            a += 1;
        }
        proof {
            assert forall|o: u64|
                #![trigger r@.contains(o)]
                #![trigger self.rlocs().contains_key(o)]
                r@.contains(o) <==> self.near(pos, dist as int, o) by {
                if !r@.contains(o) && self.near(pos, dist as int, o) {
                    let loc = self.rlocs()[o];
                    assert(self.in_rect(loc));
                    let li = (dist as int) * (dist as int);
                    if self.toroidal {
                        let tx = spec_tor_dist(pos.x as int, loc.x as int, self.width as int);
                        let ty = spec_tor_dist(pos.y as int, loc.y as int, self.height as int);
                        assert(0 <= tx && 0 <= ty);
                        assert(sq(tx) >= 0 && sq(ty) >= 0) by (nonlinear_arith)
                            requires
                                0 <= tx,
                                0 <= ty,
                        ;
                        assert(sq(tx) <= li && sq(ty) <= li);
                        lemma_sq_le(tx, dist as int);
                        lemma_sq_le(ty, dist as int);
                        lemma_axis_cover_wrap(
                            loc.x as int,
                            pos.x as int,
                            dist as int,
                            d as int,
                            self.width as int,
                        );
                        lemma_axis_cover_wrap(
                            loc.y as int,
                            pos.y as int,
                            dist as int,
                            d as int,
                            self.height as int,
                        );
                        assert(cols_w@.contains(self.col_of(loc.x as int) as i64));
                        assert(rows_w@.contains(self.row_of(loc.y as int) as i64));
                    } else {
                        let tx = spec_abs(pos.x as int - loc.x as int);
                        let ty = spec_abs(pos.y as int - loc.y as int);
                        assert(sq(pos.x - loc.x) == sq(tx) && sq(pos.y - loc.y) == sq(
                            ty,
                        )) by (nonlinear_arith)
                            requires
                                tx == spec_abs(pos.x - loc.x),
                                ty == spec_abs(pos.y - loc.y),
                        ;
                        assert(sq(tx) >= 0 && sq(ty) >= 0) by (nonlinear_arith)
                            requires
                                0 <= tx,
                                0 <= ty,
                        ;
                        assert(sq(tx) <= li && sq(ty) <= li);
                        lemma_sq_le(tx, dist as int);
                        lemma_sq_le(ty, dist as int);
                        lemma_axis_cover_flat(
                            loc.x as int,
                            pos.x as int,
                            dist as int,
                            d as int,
                            self.cols(),
                        );
                        lemma_axis_cover_flat(
                            loc.y as int,
                            pos.y as int,
                            dist as int,
                            d as int,
                            self.rows(),
                        );
                        assert(cols_w@.contains(self.col_of(loc.x as int) as i64));
                        assert(rows_w@.contains(self.row_of(loc.y as int) as i64));
                    }
                    let i = choose|i: int|
                        0 <= i < cols_w@.len() && cols_w@[i] == self.col_of(loc.x as int) as i64;
                    let j = choose|j: int|
                        0 <= j < rows_w@.len() && rows_w@[j] == self.row_of(loc.y as int) as i64;
                    assert(self.key_of(loc) == Field2D::spec_key(
                        cols_w@[i] as int,
                        rows_w@[j] as int,
                    ));
                    assert(visited_key(cols_w@, rows_w@, na as int, 0, self.key_of(loc)));
                    assert(false);
                }
            }
        }
        r
    }

    /// Promote both write views together: the publication barrier for the
    /// field.
    pub fn update(&mut self)
        requires
            old(self).wf(),
        ensures
            final(self).wf(),
            final(self).rlocs() == old(self).wlocs(),
            final(self).wlocs() == old(self).wlocs(),
            final(self).width == old(self).width,
            final(self).height == old(self).height,
            final(self).discretization == old(self).discretization,
            final(self).toroidal == old(self).toroidal,
    {
        self.loc_map.update();
        self.bag_map.update();
    }

    /// `update`, skipped per inner map when nothing was staged; the views
    /// come out as `update` would leave them.
    pub fn lazy_update(&mut self)
        requires
            old(self).wf(),
        ensures
            final(self).wf(),
            final(self).rlocs() == old(self).wlocs(),
            final(self).wlocs() == old(self).wlocs(),
            final(self).width == old(self).width,
            final(self).height == old(self).height,
            final(self).discretization == old(self).discretization,
            final(self).toroidal == old(self).toroidal,
    {
        self.loc_map.lazy_update();
        self.bag_map.lazy_update();
    }
}

/// The placement round-trip law: stage an object's location, publish, and
/// the published views hand the location back and list the object in its
/// bucket. The three fields are the states before the staging, after the
/// staging, and after the publication, related as the contracts of
/// `set_object_location` and `update` relate them.
pub proof fn law_round_trip(
    before: Field2D,
    staged: Field2D,
    published: Field2D,
    o: u64,
    p: Int2D,
)
    requires
        staged.wlocs() == before.wlocs().insert(o, before.wrapped(p)),
        published.wf(),
        published.rlocs() == staged.wlocs(),
    ensures
        published.rlocs().contains_key(o),
        published.rlocs()[o] == before.wrapped(p),
        published.rbags().contains_key(published.key_of(before.wrapped(p)) as u64),
        published.rbags()[published.key_of(before.wrapped(p)) as u64]@.contains(o),
{
    assert(published.rlocs().contains_key(o));
}

/// Whether column `c` lies within `span` steps of `b` on a circle of `n`
/// columns.
pub open spec fn in_circular_window(c: int, b: int, span: int, n: int) -> bool {
    exists|j: int| -span <= j <= span && c == #[trigger] ((b + j) % n)
}

/// Quotients add up under a shared denominator.
proof fn lemma_div_superadd(a: int, b: int, d: int)
    requires
        0 <= a,
        0 <= b,
        1 <= d,
    ensures
        a / d + b / d <= (a + b) / d,
{
    vstd::arithmetic::div_mod::lemma_fundamental_div_mod(a, d);
    vstd::arithmetic::div_mod::lemma_mod_bound(a, d);
    vstd::arithmetic::div_mod::lemma_fundamental_div_mod(b, d);
    vstd::arithmetic::div_mod::lemma_mod_bound(b, d);
    let qa = a / d;
    let qb = b / d;
    assert((qa + qb) * d <= a + b) by (nonlinear_arith)
        requires
            a == d * qa + a % d,
            b == d * qb + b % d,
            a % d >= 0,
            b % d >= 0,
    ;
    vstd::arithmetic::div_mod::lemma_div_is_ordered((qa + qb) * d, a + b, d);
    vstd::arithmetic::div_mod::lemma_fundamental_div_mod_converse((qa + qb) * d, d, qa + qb, 0);
}

/// Moving at most `r` along the axis moves the quotient by at most the
/// ceiling of `r / d`.
proof fn lemma_div_shift_le(b: int, r: int, d: int)
    requires
        0 <= b,
        0 <= r,
        1 <= d,
    ensures
        (b + r) / d <= b / d + (r + d - 1) / d,
{
    vstd::arithmetic::div_mod::lemma_fundamental_div_mod(b, d);
    vstd::arithmetic::div_mod::lemma_mod_bound(b, d);
    vstd::arithmetic::div_mod::lemma_fundamental_div_mod(r + d - 1, d);
    vstd::arithmetic::div_mod::lemma_mod_bound(r + d - 1, d);
    let qb = b / d;
    let qs = (r + d - 1) / d;
    assert(b + r <= (qb + qs) * d + (d - 1)) by (nonlinear_arith)
        requires
            b == d * qb + b % d,
            r + d - 1 == d * qs + (r + d - 1) % d,
            b % d <= d - 1,
            (r + d - 1) % d <= d - 1,
            b % d >= 0,
            (r + d - 1) % d >= 0,
    ;
    vstd::arithmetic::div_mod::lemma_div_is_ordered(b + r, (qb + qs) * d + (d - 1), d);
    vstd::arithmetic::div_mod::lemma_fundamental_div_mod_converse(
        (qb + qs) * d + (d - 1),
        d,
        qb + qs,
        d - 1,
    );
}

/// The ceiling of `r / d` exceeds the floor of `(r - 1) / d`.
proof fn lemma_ceil_from_pred(r: int, d: int)
    requires
        1 <= r,
        1 <= d,
    ensures
        (r + d - 1) / d == (r - 1) / d + 1,
{
    vstd::arithmetic::div_mod::lemma_fundamental_div_mod(r - 1, d);
    vstd::arithmetic::div_mod::lemma_mod_bound(r - 1, d);
    let q = (r - 1) / d;
    assert(r + d - 1 == (q + 1) * d + (r - 1) % d) by (nonlinear_arith)
        requires
            r - 1 == d * q + (r - 1) % d,
    ;
    vstd::arithmetic::div_mod::lemma_fundamental_div_mod_converse(
        r + d - 1,
        d,
        q + 1,
        (r - 1) % d,
    );
}

/// Two window offsets within one circumference that wrap to the same
/// column are the same offset.
proof fn lemma_mod_injective_window(b: int, j1: int, j2: int, n: int)
    requires
        1 <= n,
        -n < j1 - j2 < n,
        (b + j1) % n == (b + j2) % n,
    ensures
        j1 == j2,
{
    vstd::arithmetic::div_mod::lemma_fundamental_div_mod(b + j1, n);
    vstd::arithmetic::div_mod::lemma_fundamental_div_mod(b + j2, n);
    let q1 = (b + j1) / n;
    let q2 = (b + j2) / n;
    assert(j1 - j2 == n * (q1 - q2)) by (nonlinear_arith)
        requires
            b + j1 == n * q1 + (b + j1) % n,
            b + j2 == n * q2 + (b + j2) % n,
            (b + j1) % n == (b + j2) % n,
    ;
    assert(j1 == j2) by (nonlinear_arith)
        requires
            j1 - j2 == n * (q1 - q2),
            -n < j1 - j2 < n,
            n >= 1,
    ;
}

/// The bucket count along one axis of length `l` with pitch `d`.
pub open spec fn axis_n(l: int, d: int) -> int {
    if l / d < 1 {
        1
    } else {
        l / d
    }
}

/// The bucket index of coordinate `v` along an axis of `n` buckets.
pub open spec fn axis_col(v: int, d: int, n: int) -> int {
    if v / d < n - 1 {
        v / d
    } else {
        n - 1
    }
}

/// A nonnegative number with the smaller square is the smaller number.
proof fn lemma_sq_le(a: int, b: int)
    requires
        0 <= a,
        0 <= b,
        a * a <= b * b,
    ensures
        a <= b,
{
    assert(a <= b) by (nonlinear_arith)
        requires
            0 <= a,
            0 <= b,
            a * a <= b * b,
    ;
}

/// Coordinates at most `rr` apart sit at most `ceil(rr / d)` bucket
/// columns apart on a flat axis.
proof fn lemma_axis_cover_flat(x: int, cx: int, rr: int, d: int, n: int)
    requires
        0 <= x,
        0 <= cx,
        0 <= rr,
        spec_abs(x - cx) <= rr,
        1 <= d,
        1 <= n,
    ensures
        spec_abs(axis_col(x, d, n) - axis_col(cx, d, n)) <= (rr + d - 1) / d,
{
    let span = (rr + d - 1) / d;
    vstd::arithmetic::div_mod::lemma_fundamental_div_mod_converse(0, d, 0, 0);
    vstd::arithmetic::div_mod::lemma_div_is_ordered(0, rr + d - 1, d);
    vstd::arithmetic::div_mod::lemma_div_is_ordered(x, cx + rr, d);
    lemma_div_shift_le(cx, rr, d);
    vstd::arithmetic::div_mod::lemma_div_is_ordered(cx, x + rr, d);
    lemma_div_shift_le(x, rr, d);
    vstd::arithmetic::div_mod::lemma_div_pos_is_pos(x, d);
    vstd::arithmetic::div_mod::lemma_div_pos_is_pos(cx, d);
}

/// Coordinates within wrap-around distance `rr` sit within `ceil(rr / d)`
/// wrapped bucket columns of each other on a toroidal axis.
proof fn lemma_axis_cover_wrap(x: int, cx: int, rr: int, d: int, l: int)
    requires
        0 <= x < l,
        0 <= cx < l,
        0 <= rr,
        spec_tor_dist(x, cx, l) <= rr,
        1 <= d,
    ensures
        in_circular_window(
            axis_col(x, d, axis_n(l, d)),
            axis_col(cx, d, axis_n(l, d)),
            (rr + d - 1) / d,
            axis_n(l, d),
        ),
{
    let n = axis_n(l, d);
    let span = (rr + d - 1) / d;
    let c = axis_col(x, d, n);
    let b = axis_col(cx, d, n);
    vstd::arithmetic::div_mod::lemma_fundamental_div_mod_converse(0, d, 0, 0);
    vstd::arithmetic::div_mod::lemma_div_is_ordered(0, rr + d - 1, d);
    vstd::arithmetic::div_mod::lemma_div_pos_is_pos(x, d);
    vstd::arithmetic::div_mod::lemma_div_pos_is_pos(cx, d);
    vstd::arithmetic::div_mod::lemma_div_pos_is_pos(l, d);
    if n == 1 {
        assert(c == 0 && b == 0);
        vstd::arithmetic::div_mod::lemma_fundamental_div_mod_converse(b + 0, 1, b, 0);
        assert(c == (b + 0) % n);
    } else if spec_abs(x - cx) <= rr {
        lemma_axis_cover_flat(x, cx, rr, d, n);
        let j = c - b;
        vstd::arithmetic::div_mod::lemma_fundamental_div_mod_converse(b + j, n, 0, c);
        assert(c == (b + j) % n);
    } else {
        assert(l - spec_abs(x - cx) <= rr);
        assert(n == l / d);
        if x <= cx {
            assert(x + l - cx <= rr);
            if cx / d >= n - 1 {
                assert(b == n - 1);
                assert(x <= rr - 1);
                vstd::arithmetic::div_mod::lemma_div_is_ordered(x, rr - 1, d);
                lemma_ceil_from_pred(rr, d);
                assert(c <= span - 1);
                let j = c + 1;
                vstd::arithmetic::div_mod::lemma_fundamental_div_mod_converse(b + j, n, 1, c);
                assert(c == (b + j) % n);
            } else {
                assert(b == cx / d);
                lemma_div_superadd(x, l, d);
                vstd::arithmetic::div_mod::lemma_div_is_ordered(x + l, cx + rr, d);
                lemma_div_shift_le(cx, rr, d);
                assert(x / d + n <= b + span);
                assert(c <= x / d);
                let j = c + n - b;
                assert(0 <= j <= span);
                vstd::arithmetic::div_mod::lemma_fundamental_div_mod_converse(b + j, n, 1, c);
                assert(c == (b + j) % n);
            }
        } else {
            assert(cx + l - x <= rr);
            if x / d >= n - 1 {
                assert(c == n - 1);
                assert(cx <= rr - 1);
                vstd::arithmetic::div_mod::lemma_div_is_ordered(cx, rr - 1, d);
                lemma_ceil_from_pred(rr, d);
                assert(b <= span - 1);
                let j = -(b + 1);
                vstd::arithmetic::div_mod::lemma_fundamental_div_mod_converse(b + j, n, -1, c);
                assert(c == (b + j) % n);
            } else {
                assert(c == x / d);
                lemma_div_superadd(cx, l, d);
                vstd::arithmetic::div_mod::lemma_div_is_ordered(cx + l, x + rr, d);
                lemma_div_shift_le(x, rr, d);
                assert(b + n <= c + span);
                assert(b <= cx / d);
                let j = c - b - n;
                assert(-span <= j <= 0);
                vstd::arithmetic::div_mod::lemma_fundamental_div_mod_converse(b + j, n, -1, c);
                assert(c == (b + j) % n);
            }
        }
    }
}

/// The columns a neighbor scan visits along one axis: the window of
/// `span` columns either side of `b`, clipped to the edges of a flat
/// axis, wrapped around on a torus.
fn axis_window(b: i64, span: i64, n: i64, wrap: bool) -> (r: Vec<i64>)
    requires
        0 <= b < n,
        0 <= span <= MAX_EXTENT,
        1 <= n <= MAX_EXTENT,
    ensures
        r@.no_duplicates(),
        forall|i: int| 0 <= i < r@.len() ==> 0 <= #[trigger] r@[i] < n,
        forall|c: i64|
            0 <= c < n ==> (r@.contains(c) <==> (if wrap {
                in_circular_window(c as int, b as int, span as int, n as int)
            } else {
                b - span <= c <= b + span
            })),
{
    let mut r: Vec<i64> = Vec::new();
    if wrap && span >= n || wrap && 2 * span + 1 >= n {
        let mut c: i64 = 0;
        while c < n
            invariant
                0 <= c <= n,
                r@.len() == c,
                forall|i: int| 0 <= i < r@.len() ==> #[trigger] r@[i] == i,
            decreases n - c,
        {
            r.push(c);
            c += 1;
        }
        proof {
            assert forall|a: int, bb: int| 0 <= a < bb < r@.len() implies r@[a] != r@[bb] by {}
            assert forall|cc: i64| 0 <= cc < n implies r@.contains(cc) && in_circular_window(
                cc as int,
                b as int,
                span as int,
                n as int,
            ) by {
                assert(r@[cc as int] == cc);
                let delta = cc as int - b;
                if -span <= delta <= span {
                    vstd::arithmetic::div_mod::lemma_fundamental_div_mod_converse(
                        b + delta,
                        n as int,
                        0,
                        cc as int,
                    );
                    assert(cc as int == (b as int + delta) % (n as int));
                } else if delta > span {
                    let j = delta - n;
                    assert(-span <= j <= span);
                    vstd::arithmetic::div_mod::lemma_fundamental_div_mod_converse(
                        b + j,
                        n as int,
                        -1,
                        cc as int,
                    );
                    assert(cc as int == (b as int + j) % (n as int));
                } else {
                    let j = delta + n;
                    assert(-span <= j <= span);
                    vstd::arithmetic::div_mod::lemma_fundamental_div_mod_converse(
                        b + j,
                        n as int,
                        1,
                        cc as int,
                    );
                    assert(cc as int == (b as int + j) % (n as int));
                }
            }
        }
    } else if wrap {
        let mut j: i64 = 0;
        let count = 2 * span + 1;
        while j < count
            invariant
                0 <= j <= count,
                count == 2 * span + 1,
                count < n,
                0 <= span,
                0 <= b < n,
                n <= MAX_EXTENT,
                span <= MAX_EXTENT,
                r@.len() == j,
                forall|i: int|
                    0 <= i < r@.len() ==> 0 <= #[trigger] r@[i] < n && r@[i] as int == (b as int
                        + (i - span)) % (n as int),
            decreases count - j,
        {
            let c = toroidal_transform(b + (j - span), n);
            r.push(c);
            j += 1;
        }
        proof {
            assert forall|a: int, bb: int| 0 <= a < bb < r@.len() implies r@[a] != r@[bb] by {
                if r@[a] == r@[bb] {
                    lemma_mod_injective_window(b as int, a - span, bb - span, n as int);
                }
            }
            assert forall|cc: i64| 0 <= cc < n implies (r@.contains(cc) <==> in_circular_window(
                cc as int,
                b as int,
                span as int,
                n as int,
            )) by {
                if r@.contains(cc) {
                    let i = choose|i: int| 0 <= i < r@.len() && r@[i] == cc;
                    assert(cc as int == (b as int + (i - span)) % (n as int));
                    assert(-span <= i - span <= span);
                } else {
                    if in_circular_window(cc as int, b as int, span as int, n as int) {
                        let jj = choose|jj: int|
                            -span <= jj <= span && cc as int == #[trigger] ((b as int + jj) % (
                            n as int));
                        assert(r@[jj + span] as int == (b as int + jj) % (n as int));
                        assert(r@[jj + span] == cc);
                        assert(false);
                    }
                }
            }
        }
    } else {
        let lo = if b > span {
            b - span
        } else {
            0
        };
        let hi = if b <= n - 1 - span {
            b + span
        } else {
            n - 1
        };
        let mut c = lo;
        while c <= hi
            invariant
                lo <= c <= hi + 1,
                0 <= lo,
                hi < n,
                r@.len() == c - lo,
                forall|i: int| 0 <= i < r@.len() ==> #[trigger] r@[i] == lo + i,
            decreases hi + 1 - c,
        {
            r.push(c);
            c += 1;
        }
        proof {
            assert forall|a: int, bb: int| 0 <= a < bb < r@.len() implies r@[a] != r@[bb] by {}
            assert forall|cc: i64| 0 <= cc < n implies (r@.contains(cc) <==> b - span <= cc <= b
                + span) by {
                if lo <= cc <= hi {
                    assert(r@[cc - lo] == cc);
                }
                if r@.contains(cc) {
                    let i = choose|i: int| 0 <= i < r@.len() && r@[i] == cc;
                }
            }
        }
    }
    r
}

/// Whether a scan standing at column index `a` and row index `bi` has
/// already visited bucket key `k`.
pub open spec fn visited_key(cols: Seq<i64>, rows: Seq<i64>, a: int, bi: int, k: int) -> bool {
    exists|i: int, j: int|
        0 <= i < cols.len() && 0 <= j < rows.len() && (i < a || (i == a && j < bi)) && k
            == #[trigger] Field2D::spec_key(cols[i] as int, rows[j] as int)
}

/// The key of the pair the scan stands at is not yet visited.
proof fn lemma_visited_key_fresh(
    cols: Seq<i64>,
    rows: Seq<i64>,
    a: int,
    bi: int,
    nc: int,
    nr: int,
)
    requires
        0 <= a < cols.len(),
        0 <= bi < rows.len(),
        cols.no_duplicates(),
        rows.no_duplicates(),
        forall|i: int| 0 <= i < cols.len() ==> 0 <= #[trigger] cols[i] < nc,
        forall|i: int| 0 <= i < rows.len() ==> 0 <= #[trigger] rows[i] < nr,
        nc <= 0x1_0000_0000,
        nr <= 0x1_0000_0000,
    ensures
        !visited_key(cols, rows, a, bi, Field2D::spec_key(cols[a] as int, rows[bi] as int)),
{
    if visited_key(cols, rows, a, bi, Field2D::spec_key(cols[a] as int, rows[bi] as int)) {
        let (i, j) = choose|i: int, j: int|
            0 <= i < cols.len() && 0 <= j < rows.len() && (i < a || (i == a && j < bi))
                && Field2D::spec_key(cols[a] as int, rows[bi] as int) == #[trigger] Field2D::spec_key(
                cols[i] as int,
                rows[j] as int,
            );
        assert(cols[i] == cols[a] && rows[j] == rows[bi]);
        assert(i == a);
        assert(j == bi);
        assert(false);
    }
}

/// Stepping the row index visits exactly the key of the pair stepped over.
proof fn lemma_visited_key_step(cols: Seq<i64>, rows: Seq<i64>, a: int, bi: int)
    requires
        0 <= a < cols.len(),
        0 <= bi < rows.len(),
    ensures
        forall|k: int|
            #![trigger visited_key(cols, rows, a, bi + 1, k)]
            visited_key(cols, rows, a, bi + 1, k) <==> (visited_key(cols, rows, a, bi, k) || k
                == Field2D::spec_key(cols[a] as int, rows[bi] as int)),
{
    assert forall|k: int|
        #![trigger visited_key(cols, rows, a, bi + 1, k)]
        visited_key(cols, rows, a, bi + 1, k) <==> (visited_key(cols, rows, a, bi, k) || k
            == Field2D::spec_key(cols[a] as int, rows[bi] as int)) by {
        if visited_key(cols, rows, a, bi + 1, k) {
            let (i, j) = choose|i: int, j: int|
                0 <= i < cols.len() && 0 <= j < rows.len() && (i < a || (i == a && j < bi + 1))
                    && k == #[trigger] Field2D::spec_key(cols[i] as int, rows[j] as int);
            if i < a || (i == a && j < bi) {
                assert(visited_key(cols, rows, a, bi, k));
            } else {
                assert(i == a && j == bi);
            }
        }
        if visited_key(cols, rows, a, bi, k) {
            let (i, j) = choose|i: int, j: int|
                0 <= i < cols.len() && 0 <= j < rows.len() && (i < a || (i == a && j < bi)) && k
                    == #[trigger] Field2D::spec_key(cols[i] as int, rows[j] as int);
            assert(visited_key(cols, rows, a, bi + 1, k));
        }
        if k == Field2D::spec_key(cols[a] as int, rows[bi] as int) {
            assert(visited_key(cols, rows, a, bi + 1, k));
        }
    }
}

/// Finishing a column's rows is the same as standing at the start of the
/// next column.
proof fn lemma_visited_key_wrap(cols: Seq<i64>, rows: Seq<i64>, a: int)
    requires
        0 <= a < cols.len(),
    ensures
        forall|k: int|
            #![trigger visited_key(cols, rows, a + 1, 0, k)]
            visited_key(cols, rows, a, rows.len() as int, k) <==> visited_key(
                cols,
                rows,
                a + 1,
                0,
                k,
            ),
{
    assert forall|k: int|
        #![trigger visited_key(cols, rows, a + 1, 0, k)]
        visited_key(cols, rows, a, rows.len() as int, k) <==> visited_key(
            cols,
            rows,
            a + 1,
            0,
            k,
        ) by {
        if visited_key(cols, rows, a, rows.len() as int, k) {
            let (i, j) = choose|i: int, j: int|
                0 <= i < cols.len() && 0 <= j < rows.len() && (i < a || (i == a && j
                    < rows.len())) && k == #[trigger] Field2D::spec_key(
                    cols[i] as int,
                    rows[j] as int,
                );
            assert(i < a + 1);
            assert(visited_key(cols, rows, a + 1, 0, k));
        }
        if visited_key(cols, rows, a + 1, 0, k) {
            let (i, j) = choose|i: int, j: int|
                0 <= i < cols.len() && 0 <= j < rows.len() && (i < a + 1 || (i == a + 1 && j < 0))
                    && k == #[trigger] Field2D::spec_key(cols[i] as int, rows[j] as int);
            assert(i < a || (i == a && j < rows.len()));
            assert(visited_key(cols, rows, a, rows.len() as int, k));
        }
    }
}

/// A copy of `v` without any occurrence of `x`.
fn vec_without(v: &Vec<u64>, x: u64) -> (r: Vec<u64>)
    ensures
        forall|y: u64| r@.contains(y) <==> (v@.contains(y) && y != x),
        v@.no_duplicates() ==> r@.no_duplicates(),
{
    broadcast use vstd::seq_lib::lemma_seq_contains_after_push;

    let n = v.len();
    let mut r: Vec<u64> = Vec::new();
    let mut i: usize = 0;
    while i < n
        invariant
            n == v@.len(),
            i <= n,
            forall|y: u64| r@.contains(y) <==> (v@.take(i as int).contains(y) && y != x),
            v@.no_duplicates() ==> r@.no_duplicates(),
            forall|y: u64| r@.contains(y) ==> v@.take(i as int).contains(y),
        decreases n - i,
    {
        let ghost pre = r@;
        if v[i] != x {
            r.push(v[i]);
        }
        proof {
            assert(v@.take(i + 1) =~= v@.take(i as int).push(v@[i as int]));
            assert(v@.take(i + 1)[i as int] == v@[i as int]);
            assert forall|y: u64| r@.contains(y) implies (v@.take(i + 1).contains(y) && y
                != x) by {
                if pre.contains(y) {
                    let j = choose|j: int| 0 <= j < i && v@.take(i as int)[j] == y;
                    assert(v@.take(i + 1)[j] == y);
                } else {
                    assert(r@[r@.len() - 1] == v@[i as int] && y == v@[i as int]);
                    assert(v@.take(i + 1).contains(y)) by {
                        assert(v@.take(i + 1)[i as int] == y);
                    }
                }
            }
            assert forall|y: u64| v@.take(i + 1).contains(y) && y != x implies r@.contains(y) by {
                let j = choose|j: int| 0 <= j < i + 1 && (#[trigger] v@.take(i + 1)[j]) == y;
                if j < i {
                    assert(v@.take(i as int).contains(y)) by {
                        assert(v@.take(i as int)[j] == y);
                    }
                    assert(pre.contains(y));
                    let jj = choose|jj: int| 0 <= jj < pre.len() && pre[jj] == y;
                    assert(r@[jj] == y);
                } else {
                    assert(y == v@[i as int]);
                    if v@[i as int] == x {
                        assert(false);
                    } else {
                        assert(r@[r@.len() - 1] == y);
                    }
                }
            }
            if v@.no_duplicates() && v@[i as int] != x {
                if pre.contains(v@[i as int]) {
                    let j = choose|j: int| 0 <= j < i && v@.take(i as int)[j] == v@[i as int];
                    assert(v@[j] == v@[i as int]);
                    assert(false);
                }
                assert forall|a: int, b: int|
                    0 <= a < b < r@.len() implies r@[a] != r@[b] by {
                    if b + 1 == r@.len() {
                        assert(pre.contains(pre[a]));
                    }
                }
            }
        }
        i += 1;
    }
    proof {
        assert(v@.take(n as int) =~= v@);
    }
    r
}

/// A copy of `v` with `x` appended.
fn vec_with(v: &Vec<u64>, x: u64) -> (r: Vec<u64>)
    ensures
        r@ == v@.push(x),
{
    let n = v.len();
    let mut r: Vec<u64> = Vec::new();
    let mut i: usize = 0;
    while i < n
        invariant
            n == v@.len(),
            i <= n,
            r@ == v@.take(i as int),
        decreases n - i,
    {
        r.push(v[i]);
        proof {
            assert(r@ =~= v@.take(i + 1));
        }
        i += 1;
    }
    r.push(x);
    proof {
        assert(v@.take(n as int) =~= v@);
    }
    r
}

} // verus!
