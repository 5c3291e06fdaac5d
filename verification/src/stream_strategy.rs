use vstd::prelude::*;
use crate::compression_step::CompressionStep;
use crate::error::StreamError;
use crate::raster::{ImageView, PixelImage};

verus! {

/// A way of cutting the data `D` of an image into steps of type `T`, and of putting
/// the steps back together on the receiving side.
pub trait Strategy<T: View, D: View> {
    /// The number of steps the data is spread over.
    spec fn total_steps_spec(&self) -> usize;

    /// The data and step numbers on which `step` is defined.
    spec fn step_ok(&self, data: D::V, current_step: usize) -> bool;

    /// What step `current_step` sends for `data`.
    spec fn step_spec(&self, data: D::V, current_step: usize) -> T::V;

    /// The data and steps on which `merge` is defined.
    spec fn merge_ok(&self, current: D::V, step: T::V) -> bool;

    /// The data after merging `step` into `current`.
    spec fn merge_spec(&self, current: D::V, step: T::V) -> D::V;

    /// The data of an image, where it has one.
    spec fn data_of(&self, image: ImageView) -> Option<D::V>;

    /// `image` is an image that `to_image` may give for `data` (where decoding rests on an
    /// outside decoder, this is what holds of every outcome).
    spec fn shows(&self, data: D::V, image: ImageView) -> bool;

    /// The data from which `generate_empty` can start.
    spec fn empty_ok(&self, source: D::V) -> bool;

    /// The data that a receiver starts from.
    spec fn empty_spec(&self, source: D::V) -> D::V;

    fn step(&self, data: &D, current_step: usize) -> (r: CompressionStep<T>)
        requires
            self.step_ok(data@, current_step),
        ensures
            r.data@ == self.step_spec(data@, current_step),
    ;

    fn merge(&self, current_data: &mut D, compression_step: &CompressionStep<T>)
        requires
            self.merge_ok(old(current_data)@, compression_step.data@),
        ensures
            final(current_data)@ == self.merge_spec(old(current_data)@, compression_step.data@),
    ;

    fn get_total_number_of_steps(&self) -> (r: usize)
        ensures
            r == self.total_steps_spec(),
    ;

    fn to_data(&self, image: &PixelImage) -> (r: Result<D, StreamError>)
        ensures
            match r {
                Ok(d) => self.data_of(image@) == Some(d@),
                Err(_) => self.data_of(image@) is None,
            },
    ;

    fn to_image(&self, data: &D) -> (r: Result<PixelImage, StreamError>)
        ensures
            match r {
                Ok(image) => self.shows(data@, image@),
                Err(e) => e == StreamError::Decode,
            },
    ;

    fn generate_empty(&self, original_data: &D) -> (r: D)
        requires
            self.empty_ok(original_data@),
        ensures
            r@ == self.empty_spec(original_data@),
    ;
}

} // verus!
