use vstd::prelude::*;
use std::collections::HashMap;
use crate::compression_step::CompressionStep;
use crate::error::StreamError;
use crate::raster::{ImageView, PixelImage};
use crate::stream_strategy::Strategy;

verus! {

broadcast use vstd::std_specs::hash::group_hash_axioms;

/// The step that a request for `current_step` is answered with: requests at or past
/// `total_steps` get step `total_steps` (one past the last step `total_steps - 1`), and
/// with no steps at all the limit is step 1.
pub open spec fn capped_step(total_steps: usize, current_step: usize) -> usize {
    let limit: usize = if total_steps >= 1 { total_steps } else { 1 };
    if limit <= current_step { limit } else { current_step }
}

/// The step that a request for `current_step` is answered with, when there are
/// `total_steps` steps.
pub fn cap_step(total_steps: usize, current_step: usize) -> (r: usize)
    ensures
        r == capped_step(total_steps, current_step),
{
    let limit: usize = if total_steps >= 1 { total_steps } else { 1 };
    if limit <= current_step { limit } else { current_step }
}

/// Requests at or past the limit `max(total_steps, 1)` are all answered with that step,
/// and requests below it with the step asked for.
pub proof fn lemma_capped_step(total_steps: usize, k1: usize, k2: usize)
    ensures
        ({
            let limit: int = if total_steps >= 1 { total_steps as int } else { 1 };
            &&& k1 >= limit && k2 >= limit ==> capped_step(total_steps, k1) == capped_step(total_steps, k2)
                && capped_step(total_steps, k1) == limit
            &&& k1 < limit ==> capped_step(total_steps, k1) == k1
        }),
{
}

/// Holds an image's data and answers requests for its steps, computing each step once.
pub struct Server<'a, S: Strategy<T, D>, T: View, D: View + Default> {
    full_quality_image: PixelImage,
    compression_step_cache: HashMap<usize, CompressionStep<T>>,
    strategy: &'a S,
    full_quality_data: D,
}

impl<'a, S: Strategy<T, D>, T: View, D: View + Default> Server<'a, S, T, D> {
    /// The strategy that cuts the data into steps.
    pub closed spec fn spec_strategy(&self) -> S {
        *self.strategy
    }

    /// The data of the full-quality image.
    pub closed spec fn data_view(&self) -> D::V {
        self.full_quality_data@
    }

    /// The full-quality image.
    pub closed spec fn image_view(&self) -> ImageView {
        self.full_quality_image@
    }

    /// The steps that have been computed so far.
    pub closed spec fn cached_steps(&self) -> Set<usize> {
        self.compression_step_cache@.dom()
    }

    /// Every computed step is the one that the strategy gives for the data.
    pub closed spec fn wf(&self) -> bool {
        forall|k: usize|
            #[trigger] self.compression_step_cache@.contains_key(k)
                ==> self.compression_step_cache@[k].data@ == self.spec_strategy().step_spec(
                self.data_view(),
                k,
            )
    }

    /// A server for `full_quality_image`, whose data the strategy makes; `Err` where the
    /// strategy cannot make data of the image.
    pub fn new(full_quality_image: PixelImage, strategy: &'a S) -> (r: Result<Self, StreamError>)
        ensures
            match r {
                Ok(server) => {
                    &&& strategy.data_of(full_quality_image@) == Some(server.data_view())
                    &&& server.spec_strategy() == *strategy
                    &&& server.image_view() == full_quality_image@
                    &&& server.cached_steps() == Set::<usize>::empty()
                    &&& server.wf()
                },
                Err(_) => strategy.data_of(full_quality_image@) is None,
            },
    {
        let full_quality_data = match strategy.to_data(&full_quality_image) {
            Ok(data) => data,
            Err(e) => return Err(e),
        };
        let server = Server {
            full_quality_image,
            compression_step_cache: HashMap::new(),
            strategy,
            full_quality_data,
        };
        assert(server.compression_step_cache@.dom() =~= Set::<usize>::empty());
        Ok(server)
    }

    /// Step `current_step` (capped at `max(total_steps, 1)`), computed on the first request
    /// and taken from the cache afterwards.
    pub fn send_step(&mut self, current_step: usize) -> (r: &CompressionStep<T>)
        requires
            old(self).wf(),
            old(self).spec_strategy().step_ok(
                old(self).data_view(),
                capped_step(old(self).spec_strategy().total_steps_spec(), current_step),
            ),
        ensures
            final(self).wf(),
            r.data@ == old(self).spec_strategy().step_spec(
                old(self).data_view(),
                capped_step(old(self).spec_strategy().total_steps_spec(), current_step),
            ),
            final(self).spec_strategy() == old(self).spec_strategy(),
            final(self).data_view() == old(self).data_view(),
            final(self).image_view() == old(self).image_view(),
            final(self).cached_steps() == old(self).cached_steps().insert(
                capped_step(old(self).spec_strategy().total_steps_spec(), current_step),
            ),
    {
        let step_capped = cap_step(self.strategy.get_total_number_of_steps(), current_step);
        let step = self.strategy.step(&self.full_quality_data, step_capped);
        self.compression_step_cache.entry(step_capped).or_insert(step)
    }
}

} // verus!
