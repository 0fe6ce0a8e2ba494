use vstd::prelude::*;
use crate::arch::consumer::UnsecureConsumerBuilder;
use crate::arch::provider::ProviderBuilder;
use crate::viewport::serializable_texture_image::decoded_rgba8;

verus! {

/// What an engine that runs both a provider and a client is made from. Times are in
/// milliseconds.
pub struct UnsecureEngineBuilder {
    pub provider_builder: ProviderBuilder,
    pub consumer_builder: UnsecureConsumerBuilder,
    pub poll_interval_millis: u64,
}

impl UnsecureEngineBuilder {
    /// The sample provider and the default client, polled every 16 milliseconds; fails when
    /// one of the sample images does not decode.
    pub fn try_with_sample(p_top: &[u8], p_side: &[u8], p_bottom: &[u8]) -> (r: Result<
        UnsecureEngineBuilder,
        anyhow::Error,
    >)
        ensures
            r is Ok <==> (decoded_rgba8(p_top@) is Some && decoded_rgba8(p_side@) is Some
                && decoded_rgba8(p_bottom@) is Some),
            r is Ok ==> r->Ok_0.poll_interval_millis == 16 && r->Ok_0.provider_builder.has_sample_settings()
                && r->Ok_0.provider_builder.geosphere_builder.cube_registry_builder.cube_builders@.len() == 1
                && r->Ok_0.consumer_builder.has_default_settings(),
    {
        let provider_builder = match ProviderBuilder::try_with_sample(p_top, p_side, p_bottom) {
            Ok(builder) => builder,
            Err(e) => return Err(e),
        };
        Ok(
            UnsecureEngineBuilder {
                provider_builder,
                consumer_builder: UnsecureConsumerBuilder::default(),
                poll_interval_millis: 16,
            },
        )
    }
}

} // verus!
