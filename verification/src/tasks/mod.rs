pub mod fib_pairs;
pub mod lex_next;
pub mod perm_cost;
pub mod collapse;
pub mod pattern_count;
pub mod repeat_run;
pub mod relay_view;
pub mod streak;
pub mod components;
pub mod second_largest;
pub mod fib_search;
pub mod ordered_next;
