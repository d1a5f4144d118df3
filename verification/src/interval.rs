//! A map from disjoint inclusive intervals to values.
//!
//! Unlike the sparse index, inserting here never rewrites older entries:
//! an insert that overlaps an existing interval is refused. Lookups run
//! by binary search over the ordered intervals.

use vstd::prelude::*;

verus! {

/// An inclusive interval of points.
#[derive(Clone, Copy, Debug, PartialEq, Eq, Structural)]
pub struct Interval {
    pub a: usize,
    pub b: usize,
}

impl Interval {
    /// An interval from `a` to `b`, or nothing when reversed.
    pub fn new(a: usize, b: usize) -> (r: Option<Interval>)
        ensures
            r == if a <= b {
                Some(Interval { a, b })
            } else {
                None::<Interval>
            },
    {
        if a <= b {
            Some(Interval { a, b })
        } else {
            None
        }
    }

    /// The interval holding one point.
    pub fn singleton(point: usize) -> (r: Interval)
        ensures
            r == (Interval { a: point, b: point }),
    {
        Interval { a: point, b: point }
    }
}

/// The interval covers point `p`.
pub open spec fn iv_covers(iv: Interval, p: int) -> bool {
    iv.a <= p <= iv.b
}

/// Keys are ordered, pairwise disjoint, non-empty intervals.
pub open spec fn keys_wf(s: Seq<Interval>) -> bool {
    (forall|i: int| 0 <= i < s.len() ==> (#[trigger] s[i]).a <= s[i].b) && (forall|i: int, j: int|
        0 <= i < j < s.len() ==> (#[trigger] s[i]).b < (#[trigger] s[j]).a)
}

/// Some key covers the point.
pub open spec fn keys_cover(s: Seq<Interval>, p: int) -> bool {
    exists|i: int| 0 <= i < s.len() && iv_covers(#[trigger] s[i], p)
}

/// The index of the key covering the point.
pub open spec fn key_index(s: Seq<Interval>, p: int) -> int {
    choose|i: int| 0 <= i < s.len() && iv_covers(#[trigger] s[i], p)
}

/// The value stored at a covered point.
pub open spec fn val_at<T>(keys: Seq<Interval>, values: Seq<T>, p: int) -> T {
    values[key_index(keys, p)]
}

/// A map from disjoint intervals to values of any type.
#[derive(Clone, Debug)]
pub struct DisjointIntervalMap<T> {
    keys: Vec<Interval>,
    values: Vec<T>,
}

impl<T> DisjointIntervalMap<T> {
    /// The intervals, in order.
    pub closed spec fn view_keys(self) -> Seq<Interval> {
        self.keys@
    }

    /// The values, aligned with the intervals.
    pub closed spec fn view_values(self) -> Seq<T> {
        self.values@
    }

    /// Keys ordered and disjoint, one value per key.
    pub open spec fn wf(self) -> bool {
        keys_wf(self.view_keys()) && self.view_values().len() == self.view_keys().len()
    }

    /// An empty map.
    pub fn new() -> (r: DisjointIntervalMap<T>)
        ensures
            r.wf(),
            r.view_keys().len() == 0,
    {
        DisjointIntervalMap { keys: Vec::new(), values: Vec::new() }
    }

    /// The number of intervals held.
    pub fn len(&self) -> (n: usize)
        ensures
            n == self.view_keys().len(),
    {
        self.keys.len()
    }

    /// Binary search for the key covering `point`; on failure, where such
    /// a key would sit.
    fn search(&self, point: usize) -> (r: Result<usize, usize>)
        requires
            self.wf(),
        ensures
            match r {
                Ok(i) => i < self.view_keys().len() && iv_covers(
                    self.view_keys()[i as int],
                    point as int,
                ),
                Err(i) => i <= self.view_keys().len() && (forall|k: int|
                    0 <= k < i ==> (#[trigger] self.view_keys()[k]).b < point) && (forall|k: int|
                    i <= k < self.view_keys().len() ==> (#[trigger] self.view_keys()[k]).a > point),
            },
    {
        let ghost s = self.keys@;
        let mut lo: usize = 0;
        let mut hi: usize = self.keys.len();
        while lo < hi
            invariant
                s == self.keys@,
                self.wf(),
                lo <= hi <= s.len(),
                forall|k: int| 0 <= k < lo ==> (#[trigger] s[k]).b < point,
                forall|k: int| hi <= k < s.len() ==> (#[trigger] s[k]).a > point,
            decreases hi - lo,
        {
            let mid = lo + (hi - lo) / 2;
            let iv = self.keys[mid];
            if iv.b < point {
                proof {
                    assert forall|k: int| 0 <= k < mid + 1 implies (#[trigger] s[k]).b < point by {
                        if k < mid {
                            assert(s[k].b < s[mid as int].a);
                        }
                    }
                }
                lo = mid + 1;
            } else if iv.a > point {
                proof {
                    assert forall|k: int| mid <= k < s.len() implies (#[trigger] s[k]).a
                        > point by {
                        if k > mid {
                            assert(s[mid as int].b < s[k].a);
                        }
                    }
                }
                hi = mid;
            } else {
                return Ok(mid);
            }
        }
        Err(lo)
    }

    /// Insert an interval, which must not overlap any interval held.
    /// Points inside the new interval look up the new value; every other
    /// covered point keeps the value it had.
    pub fn insert(&mut self, key: Interval, value: T)
        requires
            old(self).wf(),
            key.a <= key.b,
            forall|i: int|
                0 <= i < old(self).view_keys().len() ==> ((#[trigger] old(self).view_keys()[i]).b
                    < key.a || key.b < old(self).view_keys()[i].a),
        ensures
            final(self).wf(),
            forall|p: int|
                keys_cover(final(self).view_keys(), p) <==> (keys_cover(old(self).view_keys(), p)
                    || iv_covers(key, p)),
            forall|p: int|
                iv_covers(key, p) ==> val_at(
                    final(self).view_keys(),
                    final(self).view_values(),
                    p,
                ) == value,
            forall|p: int|
                !iv_covers(key, p) && keys_cover(old(self).view_keys(), p) ==> val_at(
                    final(self).view_keys(),
                    final(self).view_values(),
                    p,
                ) == val_at(old(self).view_keys(), old(self).view_values(), p),
    {
        let ghost s = self.keys@;
        let ghost vs = self.values@;
        let at = match self.search(key.a) {
            Ok(i) => {
                proof {
                    // the covering key would overlap the new one
                    assert(s[i as int].b < key.a || key.b < s[i as int].a);
                    assert(false);
                }
                i
            },
            Err(i) => i,
        };
        proof {
            assert forall|k: int| at <= k < s.len() implies key.b < (#[trigger] s[k]).a by {
                assert(s[k].a > key.a);
                assert(s[k].b < key.a || key.b < s[k].a);
            }
        }
        self.keys.insert(at, key);
        self.values.insert(at, value);
        proof {
            let s2 = self.keys@;
            assert(s2 =~= s.take(at as int) + seq![key] + s.skip(at as int));
            assert forall|i: int, j: int|
                0 <= i < j < s2.len() implies (#[trigger] s2[i]).b < (#[trigger] s2[j]).a by {
                let i0 = if i < at {
                    i
                } else {
                    i - 1
                };
                let j0 = if j < at {
                    j
                } else {
                    j - 1
                };
                if i < at && j > at {
                    assert(s2[i] == s[i] && s2[j] == s[j - 1]);
                    assert(s[i].b < key.a);
                    assert(key.b < s[j - 1].a);
                    assert(s[i].b < s[i].b + 1);
                } else if j == at {
                    assert(s2[i] == s[i] && s2[j] == key);
                    assert(s[i].b < key.a);
                } else if i == at {
                    assert(s2[i] == key && s2[j] == s[j - 1]);
                } else {
                    assert(s2[i] == s[i0] && s2[j] == s[j0]);
                }
            }
            assert forall|p: int| keys_cover(s2, p) implies (keys_cover(s, p) || iv_covers(
                key,
                p,
            )) by {
                let i = key_index(s2, p);
                if i < at {
                    assert(iv_covers(s[i], p));
                } else if i > at {
                    assert(iv_covers(s[i - 1], p));
                }
            }
            assert forall|p: int| keys_cover(s, p) implies keys_cover(s2, p) by {
                let i = key_index(s, p);
                if i < at {
                    assert(iv_covers(s2[i], p));
                } else {
                    assert(iv_covers(s2[i + 1], p));
                }
            }
            assert forall|p: int| iv_covers(key, p) implies keys_cover(s2, p) by {
                assert(iv_covers(s2[at as int], p));
            }
            let v2 = self.values@;
            assert(v2 =~= vs.take(at as int) + seq![value] + vs.skip(at as int));
            assert(forall|i: int| 0 <= i < at ==> v2[i] == vs[i]);
            assert(forall|i: int| at < i < v2.len() ==> v2[i] == vs[i - 1]);
            assert forall|p: int| iv_covers(key, p) implies val_at(s2, v2, p) == value by {
                lemma_unique_key(s2, p, at as int);
            }
            assert forall|p: int| !iv_covers(key, p) && keys_cover(s, p) implies val_at(
                s2,
                v2,
                p,
            ) == val_at(s, vs, p) by {
                let i = key_index(s, p);
                assert(iv_covers(s[i], p));
                lemma_unique_key(s, p, i);
                if i < at {
                    assert(s2[i] == s[i]);
                    lemma_unique_key(s2, p, i);
                } else {
                    assert(s2[i + 1] == s[i]);
                    lemma_unique_key(s2, p, i + 1);
                }
            }
        }
    }

    /// The value at a point, if an interval covers it.
    pub fn get(&self, point: usize) -> (r: Option<&T>)
        requires
            self.wf(),
        ensures
            r is Some <==> keys_cover(self.view_keys(), point as int),
            r matches Some(v) ==> *v == self.view_values()[key_index(
                self.view_keys(),
                point as int,
            )],
    {
        match self.search(point) {
            Ok(i) => {
                proof {
                    lemma_unique_key(self.keys@, point as int, i as int);
                }
                Some(&self.values[i])
            },
            Err(_) => {
                proof {
                    if keys_cover(self.keys@, point as int) {
                        let k = key_index(self.keys@, point as int);
                        assert(iv_covers(self.keys@[k], point as int));
                    }
                }
                None
            },
        }
    }

    /// The values of every interval intersecting `key`, in key order: the
    /// contiguous run of entries between the first interval reaching the
    /// query and the last one starting inside it.
    pub fn get_many(&self, key: &Interval) -> (r: Vec<&T>)
        requires
            self.wf(),
            key.a <= key.b,
        ensures
            exists|lo: int, hi: int|
                #![trigger self.view_values().subrange(lo, hi)]
                0 <= lo <= hi <= self.view_keys().len() && (forall|k: int|
                    0 <= k < lo ==> (#[trigger] self.view_keys()[k]).b < key.a) && (forall|k: int|
                    lo <= k < hi ==> (#[trigger] self.view_keys()[k]).a <= key.b
                        && self.view_keys()[k].b >= key.a) && (forall|k: int|
                    hi <= k < self.view_keys().len() ==> (#[trigger] self.view_keys()[k]).a
                        > key.b) && r@.len() == hi - lo && (forall|t: int|
                    0 <= t < r@.len() ==> *(#[trigger] r@[t]) == self.view_values()[lo + t]),
    {
        let ghost s = self.keys@;
        let n = self.keys.len();
        let lo = match self.search(key.a) {
            Ok(i) => i,
            Err(i) => i,
        };
        let hi = match self.search(key.b) {
            Ok(i) => i + 1,
            Err(i) => i,
        };
        proof {
            assert(forall|k: int| 0 <= k < lo ==> (#[trigger] s[k]).b < key.a);
            assert(forall|k: int| hi <= k < s.len() ==> (#[trigger] s[k]).a > key.b);
            if lo > hi {
                assert(s[hi as int].b < key.a);
                assert(s[hi as int].a > key.b);
            }
            assert forall|k: int| lo <= k < hi implies (#[trigger] s[k]).a <= key.b && s[k].b
                >= key.a by {
                if k > lo || !iv_covers(s[lo as int], key.a as int) {
                    if k == lo {
                    } else {
                        assert(s[lo as int].b < s[k].a);
                    }
                }
                if hi > 0 && k < hi - 1 {
                    assert(s[k].b < s[hi - 1].a);
                }
            }
        }
        let mut out: Vec<&T> = Vec::new();
        let mut k: usize = lo;
        while k < hi
            invariant
                self.wf(),
                s == self.keys@,
                lo <= k <= hi <= s.len(),
                out@.len() == k - lo,
                forall|t: int| 0 <= t < out@.len() ==> *(#[trigger] out@[t]) == self.view_values()[lo + t],
            decreases hi - k,
        {
            out.push(&self.values[k]);
            k = k + 1;
        }
        proof {
            assert(self.view_values().subrange(lo as int, hi as int).len() == hi - lo);
        }
        out
    }
}

/// In a well-formed map the covering key is unique.
proof fn lemma_unique_key(s: Seq<Interval>, p: int, k: int)
    requires
        keys_wf(s),
        0 <= k < s.len(),
        iv_covers(s[k], p),
    ensures
        keys_cover(s, p),
        key_index(s, p) == k,
{
    assert(keys_cover(s, p));
    let i = key_index(s, p);
    if i < k {
        assert(s[i].b < s[k].a);
    } else if i > k {
        assert(s[k].b < s[i].a);
    }
}

} // verus!
