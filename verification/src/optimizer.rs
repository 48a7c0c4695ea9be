//! Pruning: dropping the circles that later circles have painted over.

use crate::canvas::{painted, section_of, section_side, blank, Canvas};
use crate::circle::Circle;
use crate::region::Region;
use crate::render::{
    all_drawable, lemma_image_size, renderable, rendered, spec_image_height, spec_image_width,
    Render,
};
use vstd::prelude::*;

verus! {

/// The circles of the list that overlap the region, in their order.
pub open spec fn overlapping(circles: Seq<Circle>, region: &Region) -> Seq<Circle>
    decreases circles.len(),
{
    if circles.len() == 0 {
        Seq::empty()
    } else if circles.last().spec_overlaps_region(region) {
        overlapping(circles.drop_last(), region).push(circles.last())
    } else {
        overlapping(circles.drop_last(), region)
    }
}

/// The buffer of a black canvas of the given size on which the circles were
/// drawn in their order, but for those that are equal to the candidate.
pub open spec fn rendered_without(
    circles: Seq<Circle>,
    candidate: Circle,
    width: int,
    height: int,
) -> Seq<u8>
    decreases circles.len(),
{
    if circles.len() == 0 {
        blank(width * height)
    } else if circles.last() == candidate {
        rendered_without(circles.drop_last(), candidate, width, height)
    } else {
        let circle = circles.last();
        painted(
            rendered_without(circles.drop_last(), candidate, width, height),
            width,
            circle.x as int,
            circle.y as int,
            circle.radius as int,
            circle.color(),
        )
    }
}

/// Whether the candidate shows in a reference of the given size: the
/// circles that overlap its region, drawn without it, give another picture
/// inside the region than the reference has there.
pub open spec fn contributes(
    reference: Seq<u8>,
    reference_width: int,
    reference_height: int,
    circles: Seq<Circle>,
    candidate: Circle,
) -> bool {
    let region = Region::spec_new(candidate.x, candidate.y, candidate.radius);
    let near = overlapping(circles, &region);
    let width = spec_image_width(near);
    let height = spec_image_height(near);
    let local = rendered_without(near, candidate, width, height);
    !({
        &&& section_side(region.spec_real_origin_x(), region.spec_real_width(), width)
            == section_side(region.spec_real_origin_x(), region.spec_real_width(), reference_width)
        &&& section_side(region.spec_real_origin_y(), region.spec_real_height(), height)
            == section_side(
            region.spec_real_origin_y(),
            region.spec_real_height(),
            reference_height,
        )
        &&& section_of(local, width, height, &region) == section_of(
            reference,
            reference_width,
            reference_height,
            &region,
        )
    })
}

/// Those of the first `count` circles of the list that show in the
/// reference, in their order.
pub open spec fn kept(
    reference: Seq<u8>,
    reference_width: int,
    reference_height: int,
    circles: Seq<Circle>,
    count: nat,
) -> Seq<Circle>
    decreases count,
{
    if count == 0 {
        Seq::empty()
    } else if contributes(
        reference,
        reference_width,
        reference_height,
        circles,
        circles[count - 1],
    ) {
        kept(reference, reference_width, reference_height, circles, (count - 1) as nat).push(
            circles[count - 1],
        )
    } else {
        kept(reference, reference_width, reference_height, circles, (count - 1) as nat)
    }
}

/// The circles of a list that show in its rendering, in their order.
pub open spec fn pruned(circles: Seq<Circle>) -> Seq<Circle> {
    kept(
        rendered(circles, spec_image_width(circles), spec_image_height(circles)),
        spec_image_width(circles),
        spec_image_height(circles),
        circles,
        circles.len(),
    )
}

/// A list of circles with its rendering, from which the circles that do not
/// show can be told.
pub struct Optimizer {
    circles: Vec<Circle>,
    reference: Canvas,
}

impl Optimizer {
    pub closed spec fn spec_circles(&self) -> Seq<Circle> {
        self.circles@
    }

    pub closed spec fn spec_reference(&self) -> Canvas {
        self.reference
    }

    /// The reference is the rendering of the circles.
    pub open spec fn wf(&self) -> bool {
        &&& renderable(self.spec_circles())
        &&& self.spec_reference().wf()
        &&& self.spec_reference().spec_width() == spec_image_width(self.spec_circles())
        &&& self.spec_reference().spec_height() == spec_image_height(self.spec_circles())
        &&& self.spec_reference()@ == rendered(
            self.spec_circles(),
            spec_image_width(self.spec_circles()),
            spec_image_height(self.spec_circles()),
        )
    }

    /// Renders the circles, to measure each of them against.
    pub fn new(circles: Vec<Circle>) -> (optimizer: Optimizer)
        requires
            renderable(circles@),
        ensures
            optimizer.wf(),
            optimizer.spec_circles() == circles@,
    {
        let reference = Render::render_raster(circles.as_slice());
        Optimizer { circles, reference }
    }

    /// The rendering of the circles.
    pub fn reference(&self) -> (reference: &Canvas)
        ensures
            *reference == self.spec_reference(),
    {
        &self.reference
    }

    /// The circles.
    pub fn circles(&self) -> (circles: &Vec<Circle>)
        ensures
            circles@ == self.spec_circles(),
    {
        &self.circles
    }

    /// The circles that show in the rendering, in their order. Each circle
    /// is tested by itself against the rendering of them all, so the tests
    /// do not depend on one another.
    pub fn prune(&self) -> (kept_circles: Vec<Circle>)
        requires
            self.wf(),
        ensures
            kept_circles@ == pruned(self.spec_circles()),
    {
        let mut kept_circles: Vec<Circle> = Vec::new();
        let mut i: usize = 0;
        while i < self.circles.len()
            invariant
                i <= self.circles@.len(),
                self.wf(),
                kept_circles@ == kept(
                    self.reference@,
                    self.reference.spec_width() as int,
                    self.reference.spec_height() as int,
                    self.circles@,
                    i as nat,
                ),
            decreases self.circles@.len() - i,
        {
            let candidate = self.circles[i];
            if Self::test_circle(&self.reference, self.circles.as_slice(), candidate) {
                kept_circles.push(candidate);
            }
            i = i + 1;
        }
        kept_circles
    }

    /// Whether the candidate shows in the reference: draws the circles that
    /// overlap the candidate's region, but for the candidate, and compares
    /// the result with the reference inside the region. A candidate that
    /// makes no difference there is painted over and can go.
    pub fn test_circle(reference: &Canvas, circles: &[Circle], candidate: Circle) -> (shows: bool)
        requires
            reference.wf(),
            renderable(circles@),
            candidate.drawable(),
        ensures
            shows == contributes(
                reference@,
                reference.spec_width() as int,
                reference.spec_height() as int,
                circles@,
                candidate,
            ),
    {
        let candidate_region = Region::new(candidate.x, candidate.y, candidate.radius);

        let mut overlapping_circles: Vec<Circle> = Vec::new();
        let mut i: usize = 0;
        while i < circles.len()
            invariant
                i <= circles@.len(),
                overlapping_circles@ == overlapping(circles@.take(i as int), &candidate_region),
            decreases circles@.len() - i,
        {
            assert(circles@.take(i + 1).drop_last() =~= circles@.take(i as int));
            let c = circles[i];
            if c.overlaps_region(&candidate_region) {
                overlapping_circles.push(c);
            }
            i = i + 1;
        }
        assert(circles@.take(circles@.len() as int) =~= circles@);
        proof {
            lemma_overlapping_renderable(circles@, &candidate_region);
        }
        let ghost near = overlapping_circles@;
        let ghost width = spec_image_width(near);
        let ghost height = spec_image_height(near);

        let mut local_canvas = Render::create_empty_canvas(overlapping_circles.as_slice());
        let mut j: usize = 0;
        while j < overlapping_circles.len()
            invariant
                j <= near.len(),
                near == overlapping_circles@,
                all_drawable(near),
                local_canvas.wf(),
                local_canvas.spec_width() == width,
                local_canvas.spec_height() == height,
                local_canvas@ == rendered_without(near.take(j as int), candidate, width, height),
            decreases near.len() - j,
        {
            assert(near.take(j + 1).drop_last() =~= near.take(j as int));
            let c = overlapping_circles[j];
            if c != candidate {
                local_canvas.draw_circle(&c);
            }
            j = j + 1;
        }
        assert(near.take(near.len() as int) =~= near);

        let reference_canvas = reference.section(&candidate_region);
        let test_canvas = local_canvas.section(&candidate_region);

        !test_canvas.is_equal(&reference_canvas)
    }
}

/// The circles of a list that overlap a region are circles of the list:
/// where the list can be rendered, so can they, on an image that is no
/// larger.
pub proof fn lemma_overlapping_renderable(circles: Seq<Circle>, region: &Region)
    requires
        renderable(circles),
    ensures
        renderable(overlapping(circles, region)),
        spec_image_width(overlapping(circles, region)) <= spec_image_width(circles),
        spec_image_height(overlapping(circles, region)) <= spec_image_height(circles),
{
    lemma_overlapping_within(circles, region);
    lemma_image_size(circles);
    lemma_image_size(overlapping(circles, region));
    let width = spec_image_width(overlapping(circles, region));
    let height = spec_image_height(overlapping(circles, region));
    assert(width * height <= spec_image_width(circles) * spec_image_height(circles))
        by (nonlinear_arith)
        requires
            0 <= width <= spec_image_width(circles),
            0 <= height <= spec_image_height(circles),
    ;
}

/// The circles of a list that overlap a region can be drawn where those of
/// the list can, and their image is no larger.
proof fn lemma_overlapping_within(circles: Seq<Circle>, region: &Region)
    requires
        all_drawable(circles),
    ensures
        all_drawable(overlapping(circles, region)),
        spec_image_width(overlapping(circles, region)) <= spec_image_width(circles),
        spec_image_height(overlapping(circles, region)) <= spec_image_height(circles),
    decreases circles.len(),
{
    if circles.len() > 0 {
        let rest = circles.drop_last();
        assert forall|i: int| 0 <= i < rest.len() implies (#[trigger] rest[i]).drawable() by {
            assert(rest[i] == circles[i]);
        }
        lemma_overlapping_within(rest, region);
        assert(circles.last() == circles[circles.len() - 1]);
        if circles.last().spec_overlaps_region(region) {
            let near = overlapping(circles, region);
            assert(near.drop_last() =~= overlapping(rest, region));
            assert forall|i: int| 0 <= i < near.len() implies (#[trigger] near[i]).drawable() by {
                if i < near.len() - 1 {
                    assert(near[i] == overlapping(rest, region)[i]);
                }
            }
        }
    }
}

/// The circles that are kept are circles of the list, no more than it has,
/// and each of them shows in the reference.
pub proof fn lemma_kept_from_list(
    reference: Seq<u8>,
    width: int,
    height: int,
    circles: Seq<Circle>,
    count: nat,
)
    requires
        count <= circles.len(),
    ensures
        kept(reference, width, height, circles, count).len() <= count,
        forall|i: int|
            0 <= i < kept(reference, width, height, circles, count).len() ==> {
                &&& circles.contains(#[trigger] kept(reference, width, height, circles, count)[i])
                &&& contributes(
                    reference,
                    width,
                    height,
                    circles,
                    kept(reference, width, height, circles, count)[i],
                )
            },
    decreases count,
{
    if count > 0 {
        lemma_kept_from_list(reference, width, height, circles, (count - 1) as nat);
        let before = kept(reference, width, height, circles, (count - 1) as nat);
        let all = kept(reference, width, height, circles, count);
        assert forall|i: int| 0 <= i < all.len() implies {
            &&& circles.contains(#[trigger] all[i])
            &&& contributes(reference, width, height, circles, all[i])
        } by {
            if i < before.len() {
                assert(all[i] == before[i]);
            } else {
                assert(all[i] == circles[count - 1]);
            }
        }
    }
}

/// Circles taken from a list that can be rendered can be rendered, on an
/// image that is no larger.
pub proof fn lemma_part_renderable(circles: Seq<Circle>, part: Seq<Circle>)
    requires
        renderable(circles),
        forall|i: int| 0 <= i < part.len() ==> circles.contains(#[trigger] part[i]),
    ensures
        renderable(part),
        spec_image_width(part) <= spec_image_width(circles),
        spec_image_height(part) <= spec_image_height(circles),
{
    lemma_part_within(circles, part);
    lemma_image_size(circles);
    lemma_image_size(part);
    let width = spec_image_width(part);
    let height = spec_image_height(part);
    assert(width * height <= spec_image_width(circles) * spec_image_height(circles))
        by (nonlinear_arith)
        requires
            0 <= width <= spec_image_width(circles),
            0 <= height <= spec_image_height(circles),
    ;
}

/// Circles taken from a list can be drawn where those of the list can, and
/// their image is no larger.
proof fn lemma_part_within(circles: Seq<Circle>, part: Seq<Circle>)
    requires
        all_drawable(circles),
        forall|i: int| 0 <= i < part.len() ==> circles.contains(#[trigger] part[i]),
    ensures
        all_drawable(part),
        spec_image_width(part) <= spec_image_width(circles),
        spec_image_height(part) <= spec_image_height(circles),
    decreases part.len(),
{
    lemma_image_size(circles);
    assert forall|i: int| 0 <= i < part.len() implies (#[trigger] part[i]).drawable() by {
        assert(circles.contains(part[i]));
        let k = choose|k: int| 0 <= k < circles.len() && circles[k] == part[i];
        assert(circles[k].drawable());
    }
    if part.len() > 0 {
        let rest = part.drop_last();
        assert forall|i: int| 0 <= i < rest.len() implies circles.contains(
            #[trigger] rest[i],
        ) by {
            assert(rest[i] == part[i]);
        }
        lemma_part_within(circles, rest);
        assert(part.last() == part[part.len() - 1]);
        assert(circles.contains(part.last()));
        let k = choose|k: int| 0 <= k < circles.len() && circles[k] == part.last();
        assert(circles[k].x + circles[k].radius <= spec_image_width(circles));
    }
}

/// The circles that pruning keeps can be rendered where the list can.
pub proof fn lemma_pruned_renderable(circles: Seq<Circle>)
    requires
        renderable(circles),
    ensures
        renderable(pruned(circles)),
        pruned(circles).len() <= circles.len(),
{
    let width = spec_image_width(circles);
    let height = spec_image_height(circles);
    lemma_kept_from_list(rendered(circles, width, height), width, height, circles, circles.len());
    lemma_part_renderable(circles, pruned(circles));
}

} // verus!
