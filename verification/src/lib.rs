//! Verified core of a rendering framework's background-work machinery: a
//! priority- and dependency-aware task scheduler, and the submission protocol
//! that fans one frame's command buffers across concurrent lanes and joins
//! them behind fences and a semaphore barrier.

pub mod memtype;
pub mod reach;
pub mod submission;
pub mod subpass;
pub mod swapchain;
pub mod taskmanager;
