//! Polylines: the points of a path with near-duplicate neighbours
//! dropped, for callers that want plain point runs instead of commands.

use vstd::prelude::*;
use crate::num::{abs_int, MAX_MICROS};
use crate::path::{parse_path, path_accepted, path_fault, path_model, path_wf, Path, PathError};
use crate::text::tokenize;
use crate::point::Point;

verus! {

/// Two points are close when their squared distance is below a hundred
/// micros squared (a ten-thousandth of a unit).
pub open spec fn close_points(a: (int, int), b: (int, int)) -> bool {
    (a.0 - b.0) * (a.0 - b.0) + (a.1 - b.1) * (a.1 - b.1) < 10_000
}

/// The coordinate pairs of a command sequence.
pub open spec fn model_points(ms: Seq<(bool, int, int)>) -> Seq<(int, int)> {
    ms.map_values(|m: (bool, int, int)| (m.1, m.2))
}

/// Points kept in order, dropping each one that lies close to the last
/// kept point.
pub open spec fn dedup_points(ps: Seq<(int, int)>) -> Seq<(int, int)>
    decreases ps.len(),
{
    if ps.len() == 0 {
        Seq::empty()
    } else {
        let prev = dedup_points(ps.drop_last());
        if prev.len() > 0 && close_points(prev.last(), ps.last()) {
            prev
        } else {
            prev.push(ps.last())
        }
    }
}

/// The mathematical shape of a point vector.
pub open spec fn points_model(ps: Seq<Point>) -> Seq<(int, int)> {
    ps.map_values(|p: Point| (p.x as int, p.y as int))
}

/// Every point stays within the parseable magnitude.
pub open spec fn points_wf(ps: Seq<Point>) -> bool {
    forall|i: int|
        0 <= i < ps.len() ==> abs_int((#[trigger] ps[i]).x as int) <= MAX_MICROS && abs_int(
            ps[i].y as int,
        ) <= MAX_MICROS
}

/// A run of points.
#[derive(Clone, Debug, PartialEq, Eq)]
pub struct Polyline {
    pub pts: Vec<Point>,
}

impl Polyline {
    pub fn len(&self) -> (n: usize)
        ensures
            n == self.pts@.len(),
    {
        self.pts.len()
    }

    pub fn is_empty(&self) -> (b: bool)
        ensures
            b == (self.pts@.len() == 0),
    {
        self.pts.len() == 0
    }

    /// Apply `f` to every point in place, keeping the order.
    pub fn transform<F: Fn(&Point) -> Point>(&mut self, f: F)
        requires
            forall|pt: &Point| #[trigger] f.requires((pt,)),
        ensures
            final(self).pts@.len() == old(self).pts@.len(),
            forall|i: int|
                0 <= i < old(self).pts@.len() ==> f.ensures(
                    (&old(self).pts@[i],),
                    #[trigger] final(self).pts@[i],
                ),
    {
        let mut i: usize = 0;
        while i < self.pts.len()
            invariant
                i <= self.pts@.len(),
                self.pts@.len() == old(self).pts@.len(),
                forall|pt: &Point| #[trigger] f.requires((pt,)),
                forall|k: int| i <= k < self.pts@.len() ==> #[trigger] self.pts@[k] == old(
                    self,
                ).pts@[k],
                forall|k: int|
                    0 <= k < i ==> f.ensures((&old(self).pts@[k],), #[trigger] self.pts@[k]),
            decreases self.pts@.len() - i,
        {
            let p = f(&self.pts[i]);
            self.pts.set(i, p);
            i = i + 1;
        }
    }

    /// Parse the path mini-language into a point run, dropping each point
    /// that lies within a hundred micros of the previously kept one.
    /// `Ok` exactly when the text is a well-formed path within the cap; a
    /// failure names the first fault, as [`Path::from_str`] does.
    pub fn from_str(s: &str) -> (r: Result<Polyline, PathError>)
        ensures
            match r {
                Ok(p) => {
                    &&& points_wf(p.pts@)
                    &&& path_accepted(s@)
                    &&& match parse_path(s@) {
                        Option::Some(ms) => points_model(p.pts@) == dedup_points(
                            model_points(ms),
                        ),
                        Option::None => false,
                    }
                },
                Err(e) => {
                    &&& !path_accepted(s@)
                    &&& match path_fault(tokenize(s@)) {
                        Option::Some(f) => match e {
                            PathError::UnknownCommand(t) => f.0 is UnknownCommand && t@ == f.1,
                            PathError::NoX => f.0 is NoX,
                            PathError::NoY => f.0 is NoY,
                            PathError::Coordinate(t) => f.0 is Coordinate && t@ == f.1,
                        },
                        Option::None => false,
                    }
                },
            },
    {
        let path = match Path::from_str(s) {
            Ok(p) => p,
            Err(e) => {
                return Err(e);
            },
        };
        let ghost ms = path_model(path.cmds@);
        let ghost all = model_points(ms);
        let mut pts: Vec<Point> = Vec::new();
        let mut i: usize = 0;
        proof {
            assert(points_model(pts@) =~= dedup_points(all.subrange(0, 0)));
        }
        while i < path.cmds.len()
            invariant
                path_wf(path.cmds@),
                ms == path_model(path.cmds@),
                all == model_points(ms),
                all.len() == path.cmds@.len(),
                i <= path.cmds@.len(),
                points_wf(pts@),
                points_model(pts@) == dedup_points(all.subrange(0, i as int)),
            decreases path.cmds@.len() - i,
        {
            let p = *path.cmds[i].point();
            proof {
                assert(all[i as int] == (p.x as int, p.y as int));
                assert(all.subrange(0, i as int + 1).drop_last() =~= all.subrange(0, i as int));
                assert(all.subrange(0, i as int + 1).last() == all[i as int]);
            }
            let ghost prev = points_model(pts@);
            let keep: bool = if pts.len() > 0 {
                let c = pts[pts.len() - 1];
                proof {
                    assert(prev.last() == (c.x as int, c.y as int));
                    assert(prev.len() > 0);
                }
                let dx = (c.x as i128) - (p.x as i128);
                let dy = (c.y as i128) - (p.y as i128);
                proof {
                    assert(dx * dx <= 16_000_000_000_000_000_000_000_000_000_000 && dx * dx >= 0
                        && dy * dy <= 16_000_000_000_000_000_000_000_000_000_000 && dy * dy >= 0)
                        by (nonlinear_arith)
                        requires
                            -4_000_000_000_000_000 <= dx <= 4_000_000_000_000_000,
                            -4_000_000_000_000_000 <= dy <= 4_000_000_000_000_000,
                    ;
                    assert(close_points(prev.last(), all[i as int]) == (dx * dx + dy * dy
                        < 10_000));
                }
                !(dx * dx + dy * dy < 10_000)
            } else {
                true
            };
            proof {
                assert(keep == !(prev.len() > 0 && close_points(prev.last(), all[i as int])));
            }
            if keep {
                pts.push(p);
                proof {
                    assert(points_model(pts@) =~= prev.push((p.x as int, p.y as int)));
                    assert(dedup_points(all.subrange(0, i as int + 1)) == prev.push(
                        all[i as int],
                    ));
                    assert(points_model(pts@) =~= dedup_points(all.subrange(0, i as int + 1)));
                }
            } else {
                proof {
                    assert(dedup_points(all.subrange(0, i as int + 1)) == prev);
                }
            }
            i = i + 1;
        }
        proof {
            assert(all.subrange(0, all.len() as int) =~= all);
        }
        Ok(Polyline { pts })
    }
}

} // verus!
