//! What a user can hang on a client.

use vstd::prelude::*;

verus! {

/// Context of a client, kept by it for as long as it lives.
pub trait ClientContext: Send + Sync {

}

/// Consumer-specific context.
pub trait ConsumerContext: ClientContext {

}

/// An inert [`ConsumerContext`] that can be used when no customizations are needed.
#[derive(Clone, Copy, Debug)]
pub struct DefaultConsumerContext;

impl Default for DefaultConsumerContext {
    fn default() -> (context: Self)
        ensures
            context == DefaultConsumerContext,
    {
        DefaultConsumerContext
    }
}

impl ClientContext for DefaultConsumerContext {

}

impl ConsumerContext for DefaultConsumerContext {

}

} // verus!
