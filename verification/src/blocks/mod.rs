pub mod abs_sum;
pub mod frequency;
pub mod max;
pub mod nearest;
pub mod relay;
