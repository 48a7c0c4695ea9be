//! Candidate points for the search: picked at random, or ranked by how far
//! the canvas is from the reference there.

use crate::canvas::{byte_distance, smaller, Canvas};
use rand::Rng;
use vstd::prelude::*;

verus! {

/// Picks points of a canvas at random, each pixel as likely as any other.
/// It never runs out.
pub struct RandomPointSelector {
    width: u32,
    height: u32,
}

impl RandomPointSelector {
    pub closed spec fn spec_width(&self) -> u32 {
        self.width
    }

    pub closed spec fn spec_height(&self) -> u32 {
        self.height
    }

    /// A selector for the points of the canvas.
    pub fn new(canvas: &Canvas) -> (selector: RandomPointSelector)
        ensures
            selector.spec_width() == canvas.spec_width(),
            selector.spec_height() == canvas.spec_height(),
    {
        RandomPointSelector { width: canvas.width(), height: canvas.height() }
    }

    /// The next candidate: some point of the canvas. Which one is left to
    /// chance. The canvas must have a point.
    pub fn next(&mut self) -> (point: Option<(u32, u32)>)
        requires
            old(self).spec_width() > 0,
            old(self).spec_height() > 0,
        ensures
            final(self).spec_width() == old(self).spec_width(),
            final(self).spec_height() == old(self).spec_height(),
            match point {
                Some((x, y)) => x < old(self).spec_width() && y < old(self).spec_height(),
                None => false,
            },
    {
        let x: u32 = uniform_below(self.width);
        let y: u32 = uniform_below(self.height);

        Some((x, y))
    }
}

/// A pixel with the distance of the canvas from the reference there.
#[derive(Debug, Copy, Clone, PartialEq, Eq, Structural)]
pub struct Scored {
    pub x: u32,
    pub y: u32,
    pub delta: u32,
}

/// The distance between the two canvases at `(x, y)`: the sum of the
/// distances of red, green and blue.
pub open spec fn delta_at(reference: &Canvas, current: &Canvas, x: int, y: int) -> int {
    let a = reference.pixel(x, y);
    let b = current.pixel(x, y);
    byte_distance(a.r, b.r) + byte_distance(a.g, b.g) + byte_distance(a.b, b.b)
}

/// The pixel `(x, y)` with its distance.
pub open spec fn scored_at(reference: &Canvas, current: &Canvas, x: int, y: int) -> Scored {
    Scored { x: x as u32, y: y as u32, delta: delta_at(reference, current, x, y) as u32 }
}

/// The distances never grow along the list.
pub open spec fn descending(points: Seq<Scored>) -> bool {
    forall|i: int, j: int| 0 <= i < j < points.len() ==> points[i].delta >= points[j].delta
}

/// No entry of the list occurs twice.
pub open spec fn distinct(points: Seq<Scored>) -> bool {
    forall|i: int, j: int| 0 <= i < j < points.len() ==> points[i] != points[j]
}

/// Every entry of the list has the given distance or more.
pub open spec fn at_least(points: Seq<Scored>, delta: int) -> bool {
    forall|k: int| 0 <= k < points.len() ==> (#[trigger] points[k]).delta >= delta
}

/// `(px, py)` comes before `(x, y)` when the pixels are read row by row.
pub open spec fn before(px: int, py: int, x: int, y: int) -> bool {
    py < y || (py == y && px < x)
}

/// The list holds the `limit` pixels at which the canvas is farthest from
/// the reference, or all pixels where there are fewer: each entry is a pixel
/// with its distance, none occurs twice, the distances never grow along the
/// list, and no pixel that is left out is farther off than one that is in.
pub open spec fn ranks(
    points: Seq<Scored>,
    reference: &Canvas,
    current: &Canvas,
    limit: usize,
) -> bool {
    &&& points.len() == smaller(
        limit as int,
        reference.spec_width() * reference.spec_height(),
    )
    &&& descending(points)
    &&& distinct(points)
    &&& forall|k: int|
        0 <= k < points.len() ==> reference.contains(
            (#[trigger] points[k]).x as int,
            points[k].y as int,
        ) && points[k] == scored_at(reference, current, points[k].x as int, points[k].y as int)
    &&& forall|x: int, y: int|
        reference.contains(x, y) ==> points.contains(
            #[trigger] scored_at(reference, current, x, y),
        ) || at_least(points, delta_at(reference, current, x, y))
}

/// Hands out the pixels at which the canvas is farthest from the reference,
/// the farthest first. It holds a fixed number of them and runs out.
pub struct DistancePointSelector {
    points: Vec<Scored>,
    position: usize,
}

impl DistancePointSelector {
    /// The pixels still to come, in the order in which they come.
    pub closed spec fn spec_points(&self) -> Seq<Scored> {
        self.points@.skip(self.position as int)
    }

    pub closed spec fn wf(&self) -> bool {
        self.position <= self.points@.len()
    }

    /// Ranks the pixels of two canvases of one size and keeps the `limit`
    /// at which they are farthest apart.
    pub fn new(reference: &Canvas, current: &Canvas, limit: usize) -> (selector:
        DistancePointSelector)
        requires
            reference.wf(),
            current.wf(),
            reference.spec_width() == current.spec_width(),
            reference.spec_height() == current.spec_height(),
        ensures
            selector.wf(),
            ranks(selector.spec_points(), reference, current, limit),
    {
        let width: u32 = reference.width();
        let height: u32 = reference.height();
        let mut best: Vec<Scored> = Vec::new();
        let mut y: u32 = 0;
        while y < height
            invariant
                y <= height,
                width == reference.spec_width(),
                height == reference.spec_height(),
                reference.wf(),
                current.wf(),
                reference.spec_width() == current.spec_width(),
                reference.spec_height() == current.spec_height(),
                ranked_before(best@, reference, current, limit, 0, y as int),
            decreases height - y,
        {
            let mut x: u32 = 0;
            while x < width
                invariant
                    x <= width,
                    y < height,
                    width == reference.spec_width(),
                    height == reference.spec_height(),
                    reference.wf(),
                    current.wf(),
                    reference.spec_width() == current.spec_width(),
                    reference.spec_height() == current.spec_height(),
                    ranked_before(best@, reference, current, limit, x as int, y as int),
                decreases width - x,
            {
                let delta: u32 = Canvas::pixel_delta(
                    reference.get_pixel(x, y),
                    current.get_pixel(x, y),
                );
                let entry = Scored { x, y, delta };
                let ghost old_best = best@;
                assert(entry == scored_at(reference, current, x as int, y as int));
                assert(!old_best.contains(entry)) by {
                    if old_best.contains(entry) {
                        let k = choose|k: int| 0 <= k < old_best.len() && old_best[k] == entry;
                        assert(before(old_best[k].x as int, old_best[k].y as int, x as int, y as int));
                    }
                }
                offer(&mut best, entry, limit);
                proof {
                    lemma_ranked_step(old_best, best@, reference, current, limit, x as int, y as int);
                }
                x = x + 1;
            }
            proof {
                lemma_ranked_row(best@, reference, current, limit, y as int);
            }
            y = y + 1;
        }
        proof {
            lemma_ranked_all(best@, reference, current, limit);
        }
        assert(best@.skip(0) =~= best@);
        DistancePointSelector { points: best, position: 0 }
    }

    /// The next candidate: the farthest of the pixels that are left, or
    /// nothing when none is.
    pub fn next(&mut self) -> (point: Option<(u32, u32)>)
        requires
            old(self).wf(),
        ensures
            final(self).wf(),
            match point {
                Some((x, y)) => {
                    &&& old(self).spec_points().len() > 0
                    &&& x == old(self).spec_points()[0].x
                    &&& y == old(self).spec_points()[0].y
                    &&& final(self).spec_points() == old(self).spec_points().skip(1)
                },
                None => {
                    &&& old(self).spec_points().len() == 0
                    &&& final(self).spec_points() == old(self).spec_points()
                },
            },
    {
        if self.position < self.points.len() {
            let entry = self.points[self.position];
            self.position = self.position + 1;
            assert(self.points@.skip(self.position as int) =~= old(self).points@.skip(
                old(self).position as int,
            ).skip(1));
            Some((entry.x, entry.y))
        } else {
            None
        }
    }
}

/// What holds of the list when the pixels before `(x, y)` have been
/// offered: it ranks them as the whole list ranks all pixels.
pub open spec fn ranked_before(
    points: Seq<Scored>,
    reference: &Canvas,
    current: &Canvas,
    limit: usize,
    x: int,
    y: int,
) -> bool {
    &&& points.len() == smaller(limit as int, y * reference.spec_width() + x)
    &&& descending(points)
    &&& distinct(points)
    &&& forall|k: int|
        0 <= k < points.len() ==> {
            &&& reference.contains((#[trigger] points[k]).x as int, points[k].y as int)
            &&& before(points[k].x as int, points[k].y as int, x, y)
            &&& points[k] == scored_at(reference, current, points[k].x as int, points[k].y as int)
        }
    &&& forall|px: int, py: int|
        reference.contains(px, py) && before(px, py, x, y) ==> points.contains(
            #[trigger] scored_at(reference, current, px, py),
        ) || (points.len() == limit && at_least(points, delta_at(reference, current, px, py)))
}

/// Offers an entry to a list that holds at most `limit` entries, the
/// farthest first. The entry goes in behind those that are as far or
/// farther. Where the list is full, its last entry leaves for an entry that
/// is farther, and an entry that is no farther stays out.
fn offer(best: &mut Vec<Scored>, entry: Scored, limit: usize)
    requires
        descending(old(best)@),
        distinct(old(best)@),
        old(best)@.len() <= limit,
        !old(best)@.contains(entry),
    ensures
        descending(final(best)@),
        distinct(final(best)@),
        final(best)@.len() == if old(best)@.len() < limit {
            old(best)@.len() + 1
        } else {
            old(best)@.len()
        },
        forall|k: int|
            0 <= k < final(best)@.len() ==> #[trigger] final(best)@[k] == entry || old(
                best,
            )@.contains(final(best)@[k]),
        forall|k: int|
            0 <= k < old(best)@.len() ==> final(best)@.contains(#[trigger] old(best)@[k])
                || at_least(final(best)@, old(best)@[k].delta as int),
        final(best)@.contains(entry) || at_least(final(best)@, entry.delta as int),
        old(best)@.len() < limit ==> final(best)@.contains(entry) && forall|k: int|
            0 <= k < old(best)@.len() ==> final(best)@.contains(#[trigger] old(best)@[k]),
        old(best)@.len() == limit && limit > 0 ==> at_least(
            final(best)@,
            old(best)@[limit - 1].delta as int,
        ),
{
    let len: usize = best.len();
    if len == limit {
        if limit == 0 {
            return;
        }
        if entry.delta <= best[len - 1].delta {
            assert forall|k: int| 0 <= k < best@.len() implies (#[trigger] best@[k]).delta
                >= best@[len - 1].delta by {
                if k < len - 1 {
                    assert(best@[k].delta >= best@[len - 1].delta);
                }
            }
            return;
        }
        best.pop();
    }
    let ghost kept = best@;
    proof {
        lemma_beginning(old(best)@, kept, entry);
    }
    let mut i: usize = 0;
    while i < best.len() && best[i].delta >= entry.delta
        invariant
            i <= best@.len(),
            best@ == kept,
            forall|k: int| 0 <= k < i ==> (#[trigger] kept[k]).delta >= entry.delta,
        decreases best@.len() - i,
    {
        i = i + 1;
    }
    best.insert(i, entry);
    proof {
        lemma_inserted(kept, i as int, entry);
        if len == limit {
            lemma_evicted(old(best)@, kept, best@, entry);
        } else {
            assert(kept == old(best)@);
        }
    }
}

/// A list that is a beginning of another, or the same, is ordered and free
/// of doubles as the other is, and holds nothing that the other does not.
proof fn lemma_beginning(whole: Seq<Scored>, part: Seq<Scored>, entry: Scored)
    requires
        descending(whole),
        distinct(whole),
        !whole.contains(entry),
        part == whole || (whole.len() > 0 && part == whole.subrange(0, whole.len() - 1)),
    ensures
        descending(part),
        distinct(part),
        !part.contains(entry),
        forall|k: int| 0 <= k < part.len() ==> #[trigger] part[k] == whole[k],
{
    assert forall|k: int| 0 <= k < part.len() implies #[trigger] part[k] == whole[k] by {}
    assert forall|i: int, j: int| 0 <= i < j < part.len() implies part[i].delta
        >= part[j].delta by {
        assert(whole[i].delta >= whole[j].delta);
    }
    assert forall|i: int, j: int| 0 <= i < j < part.len() implies part[i] != part[j] by {
        assert(whole[i] != whole[j]);
    }
    if part.contains(entry) {
        let k = choose|k: int| 0 <= k < part.len() && part[k] == entry;
        assert(whole[k] == entry);
    }
}

/// The entries of a list into which one was inserted.
proof fn lemma_insert_index(kept: Seq<Scored>, i: int, entry: Scored, j: int)
    requires
        0 <= i <= kept.len(),
        0 <= j <= kept.len(),
    ensures
        kept.insert(i, entry).len() == kept.len() + 1,
        kept.insert(i, entry)[j] == (if j < i {
            kept[j]
        } else if j == i {
            entry
        } else {
            kept[j - 1]
        }),
{
}

/// An entry that is inserted behind the entries that are as far or farther,
/// and before the entries that are nearer, leaves the list ordered and free
/// of doubles. The list then holds what it held, and the entry.
proof fn lemma_inserted(kept: Seq<Scored>, i: int, entry: Scored)
    requires
        descending(kept),
        distinct(kept),
        !kept.contains(entry),
        0 <= i <= kept.len(),
        forall|k: int| 0 <= k < i ==> (#[trigger] kept[k]).delta >= entry.delta,
        i < kept.len() ==> kept[i].delta < entry.delta,
    ensures
        descending(kept.insert(i, entry)),
        distinct(kept.insert(i, entry)),
        kept.insert(i, entry).len() == kept.len() + 1,
        kept.insert(i, entry).contains(entry),
        forall|k: int| 0 <= k < kept.len() ==> kept.insert(i, entry).contains(#[trigger] kept[k]),
        forall|k: int|
            0 <= k < kept.insert(i, entry).len() ==> #[trigger] kept.insert(i, entry)[k] == entry
                || kept.contains(kept.insert(i, entry)[k]),
{
    let all = kept.insert(i, entry);
    lemma_insert_index(kept, i, entry, i);
    assert forall|a: int, b: int| 0 <= a < b < all.len() implies all[a].delta >= all[b].delta
        && all[a] != all[b] by {
        lemma_insert_index(kept, i, entry, a);
        lemma_insert_index(kept, i, entry, b);
        let ka = if a < i {
            a
        } else {
            a - 1
        };
        let kb = if b < i {
            b
        } else {
            b - 1
        };
        if a != i && b != i {
            assert(kept[ka].delta >= kept[kb].delta);
            assert(kept[ka] != kept[kb]);
        } else if a == i {
            assert(kept[i].delta >= kept[kb].delta || kb == i);
            assert(kept.contains(kept[kb]));
        } else {
            assert(kept.contains(kept[ka]));
        }
    }
    assert(all[i] == entry);
    assert forall|k: int| 0 <= k < kept.len() implies all.contains(#[trigger] kept[k]) by {
        if k < i {
            lemma_insert_index(kept, i, entry, k);
            assert(all[k] == kept[k]);
        } else {
            lemma_insert_index(kept, i, entry, k + 1);
            assert(all[k + 1] == kept[k]);
        }
    }
    assert forall|k: int| 0 <= k < all.len() implies #[trigger] all[k] == entry || kept.contains(
        all[k],
    ) by {
        lemma_insert_index(kept, i, entry, k);
        if k < i {
            assert(kept[k] == all[k]);
        } else if k > i {
            assert(kept[k - 1] == all[k]);
        }
    }
}

/// Where the last entry of a full list left for an entry that is farther,
/// every entry that is in now is as far as the one that left, or farther.
proof fn lemma_evicted(whole: Seq<Scored>, kept: Seq<Scored>, all: Seq<Scored>, entry: Scored)
    requires
        descending(whole),
        whole.len() > 0,
        kept == whole.subrange(0, whole.len() - 1),
        whole[whole.len() - 1].delta < entry.delta,
        forall|k: int| 0 <= k < kept.len() ==> all.contains(#[trigger] kept[k]),
        forall|k: int| 0 <= k < all.len() ==> #[trigger] all[k] == entry || kept.contains(all[k]),
    ensures
        at_least(all, whole[whole.len() - 1].delta as int),
        forall|k: int| 0 <= k < all.len() ==> #[trigger] all[k] == entry || whole.contains(all[k]),
        forall|k: int|
            0 <= k < whole.len() ==> all.contains(#[trigger] whole[k]) || at_least(
                all,
                whole[k].delta as int,
            ),
{
    let last = whole.len() - 1;
    assert forall|k: int| 0 <= k < all.len() implies (#[trigger] all[k]).delta
        >= whole[last].delta && (all[k] == entry || whole.contains(all[k])) by {
        if all[k] != entry {
            assert(kept.contains(all[k]));
            let j = choose|j: int| 0 <= j < kept.len() && kept[j] == all[k];
            assert(whole[j] == all[k]);
            if j < last {
                assert(whole[j].delta >= whole[last].delta);
            }
        }
    }
    assert forall|k: int| 0 <= k < whole.len() implies all.contains(#[trigger] whole[k])
        || at_least(all, whole[k].delta as int) by {
        if k < last {
            assert(kept[k] == whole[k]);
        }
    }
}

/// Offering the pixel `(x, y)` to a list that ranks the pixels before it
/// gives a list that ranks the pixels before the next one.
proof fn lemma_ranked_step(
    old_points: Seq<Scored>,
    points: Seq<Scored>,
    reference: &Canvas,
    current: &Canvas,
    limit: usize,
    x: int,
    y: int,
)
    requires
        reference.contains(x, y),
        ranked_before(old_points, reference, current, limit, x, y),
        descending(points),
        distinct(points),
        points.len() == if old_points.len() < limit {
            old_points.len() + 1
        } else {
            old_points.len()
        },
        forall|k: int|
            0 <= k < points.len() ==> #[trigger] points[k] == scored_at(reference, current, x, y)
                || old_points.contains(points[k]),
        forall|k: int|
            0 <= k < old_points.len() ==> points.contains(#[trigger] old_points[k]) || at_least(
                points,
                old_points[k].delta as int,
            ),
        points.contains(scored_at(reference, current, x, y)) || at_least(
            points,
            scored_at(reference, current, x, y).delta as int,
        ),
        old_points.len() < limit ==> points.contains(scored_at(reference, current, x, y))
            && forall|k: int|
            0 <= k < old_points.len() ==> points.contains(#[trigger] old_points[k]),
        old_points.len() == limit && limit > 0 ==> at_least(
            points,
            old_points[limit - 1].delta as int,
        ),
    ensures
        ranked_before(points, reference, current, limit, x + 1, y),
{
    let entry = scored_at(reference, current, x, y);
    assert(0 <= delta_at(reference, current, x, y) <= 765);
    assert forall|k: int| 0 <= k < points.len() implies {
        &&& reference.contains((#[trigger] points[k]).x as int, points[k].y as int)
        &&& before(points[k].x as int, points[k].y as int, x + 1, y)
        &&& points[k] == scored_at(reference, current, points[k].x as int, points[k].y as int)
    } by {
        if points[k] != entry {
            assert(old_points.contains(points[k]));
            let j = choose|j: int| 0 <= j < old_points.len() && old_points[j] == points[k];
            assert(reference.contains(old_points[j].x as int, old_points[j].y as int));
        }
    }
    assert forall|px: int, py: int|
        reference.contains(px, py) && before(px, py, x + 1, y) implies points.contains(
        #[trigger] scored_at(reference, current, px, py),
    ) || (points.len() == limit && at_least(points, delta_at(reference, current, px, py))) by {
        let scored = scored_at(reference, current, px, py);
        assert(0 <= delta_at(reference, current, px, py) <= 765);
        if px == x && py == y {
            if !points.contains(entry) {
                assert(old_points.len() == limit);
            }
        } else {
            assert(before(px, py, x, y));
            if old_points.contains(scored) {
                let j = choose|j: int| 0 <= j < old_points.len() && old_points[j] == scored;
                assert(points.contains(old_points[j]) || at_least(
                    points,
                    old_points[j].delta as int,
                ));
                if !points.contains(scored) {
                    assert(old_points.len() == limit);
                }
            } else {
                assert(old_points.len() == limit);
                if limit > 0 {
                    assert(old_points[limit - 1].delta >= delta_at(reference, current, px, py));
                    assert forall|k: int| 0 <= k < points.len() implies (#[trigger] points[k]).delta
                        >= delta_at(reference, current, px, py) by {
                        assert(points[k].delta >= old_points[limit - 1].delta);
                    }
                }
            }
        }
    }
}

/// A list that ranks a whole row ranks the pixels before the next row.
proof fn lemma_ranked_row(
    points: Seq<Scored>,
    reference: &Canvas,
    current: &Canvas,
    limit: usize,
    y: int,
)
    requires
        ranked_before(points, reference, current, limit, reference.spec_width() as int, y),
    ensures
        ranked_before(points, reference, current, limit, 0, y + 1),
{
    let width = reference.spec_width() as int;
    assert((y + 1) * width + 0 == y * width + width) by (nonlinear_arith);
    assert forall|k: int| 0 <= k < points.len() implies before(
        (#[trigger] points[k]).x as int,
        points[k].y as int,
        0,
        y + 1,
    ) by {
        assert(before(points[k].x as int, points[k].y as int, width, y));
    }
    assert forall|px: int, py: int|
        reference.contains(px, py) && before(px, py, 0, y + 1) implies points.contains(
        #[trigger] scored_at(reference, current, px, py),
    ) || (points.len() == limit && at_least(points, delta_at(reference, current, px, py))) by {
        assert(before(px, py, width, y));
    }
}

/// A list that ranks every row ranks the canvas.
proof fn lemma_ranked_all(
    points: Seq<Scored>,
    reference: &Canvas,
    current: &Canvas,
    limit: usize,
)
    requires
        ranked_before(points, reference, current, limit, 0, reference.spec_height() as int),
    ensures
        ranks(points, reference, current, limit),
{
    let width = reference.spec_width() as int;
    let height = reference.spec_height() as int;
    assert(height * width + 0 == width * height) by (nonlinear_arith);
    assert forall|x: int, y: int| reference.contains(x, y) implies points.contains(
        #[trigger] scored_at(reference, current, x, y),
    ) || at_least(points, delta_at(reference, current, x, y)) by {
        assert(before(x, y, 0, height));
    }
}

/// Draws a number with `rand`'s `Rng::gen_range` from the generator of the
/// current thread. Of the result only its range is claimed: it is at least
/// zero and less than the bound. An empty range would panic, so the bound
/// must be positive.
#[verifier::external_body]
fn uniform_below(bound: u32) -> (number: u32)
    requires
        bound > 0,
    ensures
        number < bound,
{
    rand::thread_rng().gen_range(0..bound)
}

} // verus!
