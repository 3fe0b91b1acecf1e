//! Whether a hasher drives the engine word by word or through DMA.
use vstd::prelude::*;

verus! {

trait Sealed {}

/// Asynchronous or blocking mode
#[allow(private_bounds)]
pub trait Mode: Sealed {}

/// Blocking mode: input words are written by the processor.
pub struct Blocking {}

impl Sealed for Blocking {}

impl Mode for Blocking {}

/// Asynchronous mode: input blocks are moved by a DMA channel.
pub struct Async {}

impl Sealed for Async {}

impl Mode for Async {}

/// DMA channels that are wired to the engine's requests.
#[allow(private_bounds)]
pub trait HashcryptDma: Sealed {}

/// Channel 30 of DMA controller 0, the one that serves the engine.
#[allow(non_camel_case_types)]
pub struct DMA0_CH30 {}

impl Sealed for DMA0_CH30 {}

impl HashcryptDma for DMA0_CH30 {}

} // verus!
