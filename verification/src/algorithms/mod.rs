//! Solutions to programming puzzles.
use vstd::prelude::*;

pub mod backspace_string_compare;
pub mod circular_queue;
pub mod find_all_duplicates_in_an_array;
pub mod hanota;
pub mod last_stone_weight;
pub mod majority_element;
pub mod maximum_units_on_a_truck;
pub mod number_of_good_pairs;
pub mod palindrome_number;
pub mod plus_one;
pub mod product_of_array_except_self;
pub mod remove_all_adjacent_duplicates_in_string;
pub mod remove_duplicates_from_sorted_array_ii;
pub mod reorganize_string;
pub mod reverse_integer;
pub mod running_sum_of_1d_array;
pub mod sort_characters_by_frequency;
pub mod sum_of_subarray_minimums;
pub mod word_search_ii;

verus! {

/// Holder of the solutions, one associated function per puzzle.
pub struct Solution;

} // verus!
