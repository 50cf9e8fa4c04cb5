pub mod dsu;
pub mod fibonacci;
pub mod kmp;
pub mod ranges;
pub mod segtree;
pub mod rle;
pub mod vec2d;
pub mod scanner;
pub mod mo;
pub mod div_conquer;
pub mod permutation;
pub mod compress;
pub mod window_stats;
pub mod median_distance;
pub mod distinct_count;
pub mod letter_count;
pub mod blocks;
pub mod tasks;
pub mod range_mode;
pub mod fenwick;
pub mod inversions;
