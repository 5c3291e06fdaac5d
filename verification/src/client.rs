use vstd::prelude::*;
use std::marker::PhantomData;
use crate::compression_step::CompressionStep;
use crate::error::StreamError;
use crate::raster::PixelImage;
use crate::stream_strategy::Strategy;

verus! {

/// Receives the steps of an image and merges them into its data.
pub struct Client<'a, S: Strategy<T, D>, T: View, D: View> {
    pub strategy: &'a S,
    current_step: usize,
    data: D,
    _phantom_0: PhantomData<T>,
}

impl<'a, S: Strategy<T, D>, T: View, D: View> Client<'a, S, T, D> {
    /// The strategy that merges the steps.
    pub closed spec fn spec_strategy(&self) -> S {
        *self.strategy
    }

    /// The data received so far.
    pub closed spec fn data_view(&self) -> D::V {
        self.data@
    }

    /// The step counter (it stays at the value it starts with).
    pub closed spec fn spec_current_step(&self) -> usize {
        self.current_step
    }

    /// A client that starts from the data `empty`.
    pub fn new(strategy: &'a S, empty: D) -> (r: Client<'a, S, T, D>)
        ensures
            r.spec_strategy() == *strategy,
            r.data_view() == empty@,
            r.spec_current_step() == 0,
    {
        Client { strategy, current_step: 0, data: empty, _phantom_0: PhantomData }
    }

    /// Merges a received step into the data, while the counter is below the number of
    /// steps.
    pub fn update_image(&mut self, compression_step: &CompressionStep<T>)
        requires
            old(self).spec_current_step() < old(self).spec_strategy().total_steps_spec() ==> old(
                self,
            ).spec_strategy().merge_ok(old(self).data_view(), compression_step.data@),
        ensures
            final(self).spec_strategy() == old(self).spec_strategy(),
            final(self).spec_current_step() == old(self).spec_current_step(),
            final(self).data_view() == if old(self).spec_current_step()
                < old(self).spec_strategy().total_steps_spec() {
                old(self).spec_strategy().merge_spec(old(self).data_view(), compression_step.data@)
            } else {
                old(self).data_view()
            },
    {
        if self.current_step < self.strategy.get_total_number_of_steps() {
            self.strategy.merge(&mut self.data, compression_step);
        }
    }

    /// The image that the data received so far shows.
    pub fn get_current_image(&self) -> (r: Result<PixelImage, StreamError>)
        ensures
            match r {
                Ok(image) => self.spec_strategy().shows(self.data_view(), image@),
                Err(e) => e == StreamError::Decode,
            },
    {
        self.strategy.to_image(&self.data)
    }
}

} // verus!
