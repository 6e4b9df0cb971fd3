//! Per-site methylation discordance (fraction of discordant read pairs).
//!
//! Aligned reads carrying CpG methylation calls are routed to every CpG
//! site they call, each site keeps a bounded uniform sample of compactly
//! encoded read windows, and at the end every sampled pair of windows is
//! tested for overlap and methylation disagreement.  The score of a site
//! is the pair `(discordant pairs, total pairs)`; the caller divides.

pub mod accum;
pub mod driver;
pub mod laws;
pub mod read;
pub mod window;

pub use driver::compute;
