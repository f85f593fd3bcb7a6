//! A set of splats held as parallel attribute arrays, sortable by depth in place.
use vstd::prelude::*;
use crate::reorder::{gather_by_order, gathered};
use crate::sort::{depth_order, is_depth_order, lemma_depth_order_is_chosen, radix_sort_depths};
use crate::validate::{
    check_splat_inputs, splat_inputs_check, InvalidArgument, COLOR_STRIDE, POSITION_STRIDE,
    ROTATION_STRIDE, SCALE_STRIDE,
};

verus! {

/// The attributes of `count` splats: positions, scales and rotations as numeric
/// components of type `F`, colors as RGBA bytes, and the current 4x4 view matrix.
pub struct GSplatData<F> {
    positions: Vec<F>,
    scales: Vec<F>,
    rotations: Vec<F>,
    colors: Vec<u8>,
    model_view: Vec<F>,
    count: usize,
}

impl<F: Copy> GSplatData<F> {
    pub closed spec fn positions_view(&self) -> Seq<F> {
        self.positions@
    }

    pub closed spec fn scales_view(&self) -> Seq<F> {
        self.scales@
    }

    pub closed spec fn rotations_view(&self) -> Seq<F> {
        self.rotations@
    }

    pub closed spec fn colors_view(&self) -> Seq<u8> {
        self.colors@
    }

    pub closed spec fn model_view_view(&self) -> Seq<F> {
        self.model_view@
    }

    pub closed spec fn count_view(&self) -> usize {
        self.count
    }

    /// The outcome of checking the lengths of the arrays against the splat count.
    pub open spec fn lengths_check(&self) -> Result<(), InvalidArgument> {
        splat_inputs_check(
            self.positions_view().len() as usize,
            self.scales_view().len() as usize,
            self.rotations_view().len() as usize,
            self.colors_view().len() as usize,
            self.model_view_view().len() as usize,
            self.count_view(),
        )
    }

    /// Every array holds exactly `count` splats and the view matrix has 16 elements.
    pub open spec fn lengths_ok(&self) -> bool {
        &&& self.positions_view().len() == self.count_view() * 3
        &&& self.scales_view().len() == self.count_view() * 3
        &&& self.rotations_view().len() == self.count_view() * 4
        &&& self.colors_view().len() == self.count_view() * 4
        &&& self.model_view_view().len() == 16
    }

    /// Takes the arrays as they are; the view matrix must have 16 elements.
    pub fn new(
        positions: Vec<F>,
        scales: Vec<F>,
        rotations: Vec<F>,
        colors: Vec<u8>,
        model_view: Vec<F>,
        count: usize,
    ) -> (r: Self)
        requires
            model_view@.len() == 16,
        ensures
            r.positions_view() == positions@,
            r.scales_view() == scales@,
            r.rotations_view() == rotations@,
            r.colors_view() == colors@,
            r.model_view_view() == model_view@,
            r.count_view() == count,
    {
        GSplatData { positions, scales, rotations, colors, model_view, count }
    }

    /// Takes the arrays after checking that each holds exactly `count` splats and that
    /// the view matrix has 16 elements; reports the first array that does not.
    pub fn from_vecs(
        positions: Vec<F>,
        scales: Vec<F>,
        rotations: Vec<F>,
        colors: Vec<u8>,
        model_view: Vec<F>,
        count: usize,
    ) -> (r: Result<Self, InvalidArgument>)
        ensures
            r is Ok <==> splat_inputs_check(
                positions.len(),
                scales.len(),
                rotations.len(),
                colors.len(),
                model_view.len(),
                count,
            ) is Ok,
            r is Err ==> Err::<(), InvalidArgument>(r->Err_0) == splat_inputs_check(
                positions.len(),
                scales.len(),
                rotations.len(),
                colors.len(),
                model_view.len(),
                count,
            ),
            r is Ok ==> ({
                let d = r->Ok_0;
                &&& d.lengths_ok()
                &&& d.positions_view() == positions@
                &&& d.scales_view() == scales@
                &&& d.rotations_view() == rotations@
                &&& d.colors_view() == colors@
                &&& d.model_view_view() == model_view@
                &&& d.count_view() == count
            }),
    {
        match check_splat_inputs(
            positions.len(),
            scales.len(),
            rotations.len(),
            colors.len(),
            model_view.len(),
            count,
        ) {
            Ok(()) => Ok(GSplatData { positions, scales, rotations, colors, model_view, count }),
            Err(e) => Err(e),
        }
    }

    /// Checks the lengths of the arrays against the splat count.
    pub fn check_lengths(&self) -> (r: Result<(), InvalidArgument>)
        ensures
            r == self.lengths_check(),
            r is Ok <==> self.lengths_ok(),
    {
        check_splat_inputs(
            self.positions.len(),
            self.scales.len(),
            self.rotations.len(),
            self.colors.len(),
            self.model_view.len(),
            self.count,
        )
    }

    pub fn positions(&self) -> (r: &Vec<F>)
        ensures
            r@ == self.positions_view(),
    {
        &self.positions
    }

    pub fn scales(&self) -> (r: &Vec<F>)
        ensures
            r@ == self.scales_view(),
    {
        &self.scales
    }

    pub fn rotations(&self) -> (r: &Vec<F>)
        ensures
            r@ == self.rotations_view(),
    {
        &self.rotations
    }

    pub fn colors(&self) -> (r: &Vec<u8>)
        ensures
            r@ == self.colors_view(),
    {
        &self.colors
    }

    pub fn model_view(&self) -> (r: &Vec<F>)
        ensures
            r@ == self.model_view_view(),
    {
        &self.model_view
    }

    pub fn count(&self) -> (r: usize)
        ensures
            r == self.count_view(),
    {
        self.count
    }

    /// Rewrites every attribute array into the order `order`: splat `i` afterwards is
    /// splat `order[i]` before. Each array is gathered on its own.
    pub fn reorder_attributes(&mut self, order: &Vec<u32>)
        requires
            old(self).lengths_ok(),
            order.len() == old(self).count_view(),
            forall|k: int| 0 <= k < order.len() ==> #[trigger] order[k] < order.len(),
        ensures
            final(self).lengths_ok(),
            final(self).positions_view() == gathered(old(self).positions_view(), 3, order@),
            final(self).scales_view() == gathered(old(self).scales_view(), 3, order@),
            final(self).rotations_view() == gathered(old(self).rotations_view(), 4, order@),
            final(self).colors_view() == gathered(old(self).colors_view(), 4, order@),
            final(self).model_view_view() == old(self).model_view_view(),
            final(self).count_view() == old(self).count_view(),
    {
        let positions = gather_by_order(&self.positions, POSITION_STRIDE, order);
        let scales = gather_by_order(&self.scales, SCALE_STRIDE, order);
        let rotations = gather_by_order(&self.rotations, ROTATION_STRIDE, order);
        let colors = gather_by_order(&self.colors, COLOR_STRIDE, order);
        self.positions = positions;
        self.scales = scales;
        self.rotations = rotations;
        self.colors = colors;
    }

    /// Sorts the splats by their depth keys `depths` (one per splat), smallest first and
    /// stable, and reorders every attribute array into that order. Arrays whose lengths
    /// do not match the splat count are reported and nothing is changed.
    pub fn sort_and_reorder(&mut self, depths: &Vec<i32>) -> (r: Result<(), InvalidArgument>)
        requires
            depths.len() == old(self).count_view(),
            depths.len() <= u32::MAX,
        ensures
            r == old(self).lengths_check(),
            r is Err ==> *final(self) == *old(self),
            r is Ok ==> {
                let order = depth_order(depths@);
                &&& final(self).lengths_ok()
                &&& final(self).positions_view() == gathered(old(self).positions_view(), 3, order)
                &&& final(self).scales_view() == gathered(old(self).scales_view(), 3, order)
                &&& final(self).rotations_view() == gathered(old(self).rotations_view(), 4, order)
                &&& final(self).colors_view() == gathered(old(self).colors_view(), 4, order)
                &&& final(self).model_view_view() == old(self).model_view_view()
                &&& final(self).count_view() == old(self).count_view()
            },
    {
        match self.check_lengths() {
            Ok(()) => {},
            Err(e) => {
                return Err(e);
            },
        }
        let order = radix_sort_depths(depths);
        self.reorder_attributes(&order);
        Ok(())
    }
}

/// Sorting and reordering in place gives, for every attribute array, splat `order[i]` at
/// splat `i`, where `order` is what the index sort returns for the same depth keys.
pub proof fn lemma_reorder_matches_index_sort<F: Copy>(
    depths: Seq<i32>,
    order: Seq<u32>,
    before: GSplatData<F>,
    after: GSplatData<F>,
)
    requires
        is_depth_order(depths, order),
        after.positions_view() == gathered(before.positions_view(), 3, depth_order(depths)),
        after.scales_view() == gathered(before.scales_view(), 3, depth_order(depths)),
        after.rotations_view() == gathered(before.rotations_view(), 4, depth_order(depths)),
        after.colors_view() == gathered(before.colors_view(), 4, depth_order(depths)),
    ensures
        after.positions_view() == gathered(before.positions_view(), 3, order),
        after.scales_view() == gathered(before.scales_view(), 3, order),
        after.rotations_view() == gathered(before.rotations_view(), 4, order),
        after.colors_view() == gathered(before.colors_view(), 4, order),
{
    lemma_depth_order_is_chosen(depths, order);
}

} // verus!
