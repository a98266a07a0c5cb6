//! Hydration plugins: hooks the renderer calls around dynamic content so
//! that a client framework can find and re-hydrate it.

pub mod fast_v3;

pub use fast_v3::FastV3HydrationPlugin;
